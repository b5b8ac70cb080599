//! Ordering of systems by their data dependencies.
//!
//! From the declared accesses of the registered systems a dependency graph is
//! built, and from the graph the execution stages: groups of systems that may
//! run together, each stage after every stage holding one of its
//! dependencies.
use crate::access::{AccessType, DataAccess, SystemAccess, system_conflict, lists_conflict, data_conflict};
use vstd::prelude::*;
use crate::text::{append_decimal, decimal};

verus! {

// ---------------------------------------------------------------------------
// Sequences of node indices
// ---------------------------------------------------------------------------

/// Every element is smaller than the next one.
pub open spec fn strictly_increasing(s: Seq<usize>) -> bool {
    forall|a: int, b: int| 0 <= a < b < s.len() ==> #[trigger] s[a] < #[trigger] s[b]
}

/// Inserts `x` into the strictly increasing vector `v`, keeping it strictly
/// increasing; nothing changes when `x` is already present.
fn insert_sorted(v: &mut Vec<usize>, x: usize)
    requires
        strictly_increasing(old(v)@),
    ensures
        strictly_increasing(final(v)@),
        forall|y: usize| final(v)@.contains(y) <==> (old(v)@.contains(y) || y == x),
        final(v)@.len() <= old(v)@.len() + 1,
{
    let mut p: usize = 0;
    while p < v.len() && v[p] < x
        invariant
            p <= v.len(),
            strictly_increasing(v@),
            forall|k: int| 0 <= k < p ==> v@[k] < x,
        decreases v.len() - p,
    {
        p = p + 1;
    }
    if p < v.len() && v[p] == x {
        return ;
    }
    let ghost before = v@;
    v.insert(p, x);
    proof {
        assert forall|y: usize| v@.contains(y) <==> (before.contains(y) || y == x) by {
            if v@.contains(y) {
                let k = choose|k: int| 0 <= k < v@.len() && v@[k] == y;
                if k < p {
                    assert(before[k] == y);
                } else if k > p {
                    assert(before[k - 1] == y);
                }
            }
            if before.contains(y) {
                let k = choose|k: int| 0 <= k < before.len() && before[k] == y;
                if k < p {
                    assert(v@[k] == y);
                } else {
                    assert(v@[k + 1] == y);
                }
            }
            if y == x {
                assert(v@[p as int] == x);
            }
        }
    }
}

// ---------------------------------------------------------------------------
// Dependency graph
// ---------------------------------------------------------------------------

/// A dependency graph over systems `0..node_count`: for each system, the
/// strictly increasing list of the systems it depends on (that must run
/// before it).
#[derive(Debug, Clone, PartialEq, Eq)]
pub struct DependencyGraph {
    deps: Vec<Vec<usize>>,
}

/// The graph is well formed: every dependency list is strictly increasing and
/// names nodes of the graph.
pub open spec fn graph_wf(g: Seq<Seq<usize>>) -> bool {
    &&& forall|u: int| 0 <= u < g.len() ==> strictly_increasing(#[trigger] g[u])
    &&& forall|u: int, k: int| 0 <= u < g.len() && 0 <= k < g[u].len() ==> #[trigger] g[u][k] < g.len()
}

impl View for DependencyGraph {
    type V = Seq<Seq<usize>>;

    closed spec fn view(&self) -> Seq<Seq<usize>> {
        self.deps@.map_values(|d: Vec<usize>| d@)
    }
}

impl DependencyGraph {
    /// The graph's lists are well formed.
    pub open spec fn wf(&self) -> bool {
        graph_wf(self@)
    }

    /// Creates a graph of `node_count` nodes without dependencies.
    pub fn with_nodes(node_count: usize) -> (g: Self)
        ensures
            g.wf(),
            g@.len() == node_count,
            forall|u: int| 0 <= u < node_count ==> (#[trigger] g@[u]).len() == 0,
    {
        let mut deps: Vec<Vec<usize>> = Vec::new();
        let mut i: usize = 0;
        while i < node_count
            invariant
                i <= node_count,
                deps@.len() == i,
                forall|u: int| 0 <= u < i ==> (#[trigger] deps@[u])@.len() == 0,
            decreases node_count - i,
        {
            deps.push(Vec::new());
            i = i + 1;
        }
        let g = DependencyGraph { deps };
        assert(g@.len() == node_count);
        assert forall|u: int| 0 <= u < node_count implies (#[trigger] g@[u]).len() == 0 by {
            assert(g@[u] == g.deps@[u]@);
        }
        g
    }

    /// The number of nodes.
    pub fn node_count(&self) -> (r: usize)
        ensures
            r == self@.len(),
    {
        self.deps.len()
    }

    /// The dependencies of `node`, in increasing order.
    pub fn dependencies(&self, node: usize) -> (r: &Vec<usize>)
        requires
            node < self@.len(),
        ensures
            r@ == self@[node as int],
    {
        &self.deps[node]
    }

    /// Records that `node` depends on `dependency`.
    pub fn add_dependency(&mut self, node: usize, dependency: usize)
        requires
            old(self).wf(),
            node < old(self)@.len(),
            dependency < old(self)@.len(),
        ensures
            final(self).wf(),
            final(self)@.len() == old(self)@.len(),
            forall|u: int| 0 <= u < old(self)@.len() && u != node ==> #[trigger] final(self)@[u] == old(self)@[u],
            forall|y: usize| final(self)@[node as int].contains(y) <==> (old(self)@[node as int].contains(y) || y == dependency),
    {
        let ghost g0 = self@;
        assert(self.deps@[node as int]@ == g0[node as int]);
        insert_sorted(&mut self.deps[node], dependency);
        proof {
            assert forall|u: int| 0 <= u < g0.len() && u != node implies #[trigger] self@[u] == g0[u] by {
                assert(self@[u] == self.deps@[u]@);
            }
            assert(self@[node as int] == self.deps@[node as int]@);
            assert forall|u: int, k: int| 0 <= u < self@.len() && 0 <= k < self@[u].len() implies #[trigger] self@[u][k] < self@.len() by {
                if u == node {
                    let y = self@[u][k];
                    assert(self@[u].contains(y));
                    if y != dependency {
                        let k2 = choose|k2: int| 0 <= k2 < g0[u].len() && g0[u][k2] == y;
                        assert(g0[u][k2] < g0.len());
                    }
                } else {
                    assert(self@[u] == g0[u]);
                }
            }
        }
    }
}

// ---------------------------------------------------------------------------
// Building the graph from the declared accesses
// ---------------------------------------------------------------------------

/// Access `a` writes the type that access `b` names.
pub open spec fn writes_before(a: DataAccess, b: DataAccess) -> bool {
    a.type_id == b.type_id && a.access_type == AccessType::Write
}

/// Access `a` reads the type that access `b` writes.
pub open spec fn reads_before_write(a: DataAccess, b: DataAccess) -> bool {
    a.type_id == b.type_id && a.access_type == AccessType::Read && b.access_type == AccessType::Write
}

/// Some access of `xs` writes a type that some access of `ys` names.
pub open spec fn some_write_before(xs: Seq<DataAccess>, ys: Seq<DataAccess>) -> bool {
    exists|a: int, b: int| 0 <= a < xs.len() && 0 <= b < ys.len() && #[trigger] writes_before(xs[a], ys[b])
}

/// Some access of `xs` reads a type that some access of `ys` writes.
pub open spec fn some_read_before_write(xs: Seq<DataAccess>, ys: Seq<DataAccess>) -> bool {
    exists|a: int, b: int| 0 <= a < xs.len() && 0 <= b < ys.len() && #[trigger] reads_before_write(xs[a], ys[b])
}

/// System `a` writes data that system `b` reads or writes, so `a` must run first
/// when both are registered in that order.
pub open spec fn must_run_before(a: SystemAccess, b: SystemAccess) -> bool {
    some_write_before(a.component_access@, b.component_access@)
        || some_write_before(a.resource_access@, b.resource_access@)
}

/// System `a` reads data that system `b` writes.
pub open spec fn reads_what_is_written(a: SystemAccess, b: SystemAccess) -> bool {
    some_read_before_write(a.component_access@, b.component_access@)
        || some_read_before_write(a.resource_access@, b.resource_access@)
}

/// In the graph built from `accs`, system `u` depends on system `v`.
///
/// For two systems `i < j` (in registration order): when `i` writes data that
/// `j` uses, `j` depends on `i`; otherwise, when `i` reads data that `j`
/// writes, `i` depends on `j`.
pub open spec fn depends_on(accs: Seq<SystemAccess>, u: int, v: int) -> bool {
    if v < u {
        must_run_before(accs[v], accs[u])
    } else if u < v {
        !must_run_before(accs[u], accs[v]) && reads_what_is_written(accs[u], accs[v])
    } else {
        false
    }
}

/// Whether some access of `xs` writes before / reads before a write of some
/// access of `ys`.
fn pair_flags(xs: &Vec<DataAccess>, ys: &Vec<DataAccess>) -> (r: (bool, bool))
    ensures
        r.0 == some_write_before(xs@, ys@),
        r.1 == some_read_before_write(xs@, ys@),
{
    let mut wb = false;
    let mut rw = false;
    let mut i: usize = 0;
    while i < xs.len()
        invariant
            i <= xs.len(),
            wb == exists|a: int, b: int| 0 <= a < i && 0 <= b < ys@.len() && #[trigger] writes_before(xs@[a], ys@[b]),
            rw == exists|a: int, b: int| 0 <= a < i && 0 <= b < ys@.len() && #[trigger] reads_before_write(xs@[a], ys@[b]),
        decreases xs.len() - i,
    {
        let mut j: usize = 0;
        while j < ys.len()
            invariant
                i < xs.len(),
                j <= ys.len(),
                wb == ((exists|a: int, b: int| 0 <= a < i && 0 <= b < ys@.len() && #[trigger] writes_before(xs@[a], ys@[b]))
                    || exists|b: int| 0 <= b < j && #[trigger] writes_before(xs@[i as int], ys@[b])),
                rw == ((exists|a: int, b: int| 0 <= a < i && 0 <= b < ys@.len() && #[trigger] reads_before_write(xs@[a], ys@[b]))
                    || exists|b: int| 0 <= b < j && #[trigger] reads_before_write(xs@[i as int], ys@[b])),
            decreases ys.len() - j,
        {
            let a = xs[i];
            let b = ys[j];
            if a.type_id == b.type_id {
                match (a.access_type, b.access_type) {
                    (AccessType::Write, AccessType::Read) => { wb = true; },
                    (AccessType::Read, AccessType::Write) => { rw = true; },
                    (AccessType::Write, AccessType::Write) => { wb = true; },
                    _ => {},
                }
            }
            proof {
                if writes_before(a, b) {
                    assert(writes_before(xs@[i as int], ys@[j as int]));
                }
                if reads_before_write(a, b) {
                    assert(reads_before_write(xs@[i as int], ys@[j as int]));
                }
            }
            j = j + 1;
        }
        i = i + 1;
    }
    (wb, rw)
}

/// Pair `(lo, hi)` with `lo < hi` has been handled when the loops stand at `(i, j)`.
spec fn pair_done(i: int, j: int, lo: int, hi: int) -> bool {
    lo < i || (lo == i && hi < j)
}

/// The dependency lists built so far, with the loops standing at `(i, j)`.
spec fn partial_graph(accs: Seq<SystemAccess>, i: int, j: int, g: Seq<Seq<usize>>) -> bool {
    &&& g.len() == accs.len()
    &&& forall|w: int| 0 <= w < g.len() ==> strictly_increasing(#[trigger] g[w])
    &&& forall|w: int, v: usize| 0 <= w < g.len() ==>
        (#[trigger] g[w].contains(v) <==> (v < g.len() && v != w && pair_done(
            i,
            j,
            if v < w { v as int } else { w },
            if v < w { w } else { v as int },
        ) && depends_on(accs, w, v as int)))
}

/// Builds the dependency graph of the systems whose accesses are given, in
/// registration order.
pub fn build_dependency_graph(access_patterns: &[SystemAccess]) -> (g: DependencyGraph)
    ensures
        is_dependency_graph(access_patterns@, g@),
        g.wf(),
        g@.len() == access_patterns@.len(),
        forall|u: int, v: usize| 0 <= u < g@.len() ==>
            (#[trigger] g@[u].contains(v) <==> (v < g@.len() && depends_on(access_patterns@, u, v as int))),
{
    let n = access_patterns.len();
    let ghost accs = access_patterns@;
    let mut deps: Vec<Vec<usize>> = Vec::new();
    let mut k: usize = 0;
    while k < n
        invariant
            k <= n,
            n == accs.len(),
            deps@.len() == k,
            forall|u: int| 0 <= u < k ==> (#[trigger] deps@[u])@.len() == 0,
        decreases n - k,
    {
        deps.push(Vec::new());
        k = k + 1;
    }
    assert(partial_graph(accs, 0, 1, deps@.map_values(|d: Vec<usize>| d@)));
    let mut i: usize = 0;
    while i < n
        invariant
            i <= n,
            n == accs.len(),
            accs == access_patterns@,
            deps@.len() == n,
            partial_graph(accs, i as int, i as int + 1, deps@.map_values(|d: Vec<usize>| d@)),
        decreases n - i,
    {
        let mut j: usize = i + 1;
        while j < n
            invariant
                i < n,
                i + 1 <= j <= n,
                n == accs.len(),
                accs == access_patterns@,
                deps@.len() == n,
                partial_graph(accs, i as int, j as int, deps@.map_values(|d: Vec<usize>| d@)),
            decreases n - j,
        {
            let ai = &access_patterns[i];
            let aj = &access_patterns[j];
            let (cw, cr) = pair_flags(&ai.component_access, &aj.component_access);
            let (rw, rr) = pair_flags(&ai.resource_access, &aj.resource_access);
            let i_before_j = cw || rw;
            let j_before_i = cr || rr;
            let ghost g0 = deps@.map_values(|d: Vec<usize>| d@);
            assert(i_before_j == must_run_before(accs[i as int], accs[j as int]));
            assert(j_before_i == reads_what_is_written(accs[i as int], accs[j as int]));
            if i_before_j {
                assert forall|y: usize| #[trigger] g0[j as int].contains(y) implies y < i by {}
                let ghost before = deps@[j as int]@;
                assert(before == g0[j as int]);
                deps[j].push(i);
                proof {
                    let g1 = deps@.map_values(|d: Vec<usize>| d@);
                    assert(g1[j as int] == before.push(i));
                    assert forall|w: int| 0 <= w < g1.len() && w != j implies #[trigger] g1[w] == g0[w] by {}
                    assert forall|w: int, v: usize| 0 <= w < g1.len() implies
                        (#[trigger] g1[w].contains(v) <==> (v < g1.len() && v != w && pair_done(
                            i as int,
                            j as int + 1,
                            if v < w { v as int } else { w },
                            if v < w { w } else { v as int },
                        ) && depends_on(accs, w, v as int))) by {
                        if w == j {
                            if g1[w].contains(v) && v != i {
                                let t = choose|t: int| 0 <= t < g1[w].len() && g1[w][t] == v;
                                assert(before[t] == v);
                            }
                            if before.contains(v) {
                                let t = choose|t: int| 0 <= t < before.len() && before[t] == v;
                                assert(g1[w][t] == v);
                            }
                            if v == i {
                                assert(g1[w][before.len() as int] == v);
                            }
                        }
                    }
                    assert(strictly_increasing(g1[j as int])) by {
                        assert forall|a: int, b: int| 0 <= a < b < g1[j as int].len() implies #[trigger] g1[j as int][a] < #[trigger] g1[j as int][b] by {
                            assert(before.contains(before[a]));
                        }
                    }
                    assert(partial_graph(accs, i as int, j as int + 1, g1));
                }
            } else if j_before_i {
                assert forall|y: usize| #[trigger] g0[i as int].contains(y) implies y < j by {}
                let ghost before = deps@[i as int]@;
                assert(before == g0[i as int]);
                deps[i].push(j);
                proof {
                    let g1 = deps@.map_values(|d: Vec<usize>| d@);
                    assert(g1[i as int] == before.push(j));
                    assert forall|w: int| 0 <= w < g1.len() && w != i implies #[trigger] g1[w] == g0[w] by {}
                    assert forall|w: int, v: usize| 0 <= w < g1.len() implies
                        (#[trigger] g1[w].contains(v) <==> (v < g1.len() && v != w && pair_done(
                            i as int,
                            j as int + 1,
                            if v < w { v as int } else { w },
                            if v < w { w } else { v as int },
                        ) && depends_on(accs, w, v as int))) by {
                        if w == i {
                            if g1[w].contains(v) && v != j {
                                let t = choose|t: int| 0 <= t < g1[w].len() && g1[w][t] == v;
                                assert(before[t] == v);
                            }
                            if before.contains(v) {
                                let t = choose|t: int| 0 <= t < before.len() && before[t] == v;
                                assert(g1[w][t] == v);
                            }
                            if v == j {
                                assert(g1[w][before.len() as int] == v);
                            }
                        }
                    }
                    assert(strictly_increasing(g1[i as int])) by {
                        assert forall|a: int, b: int| 0 <= a < b < g1[i as int].len() implies #[trigger] g1[i as int][a] < #[trigger] g1[i as int][b] by {
                            assert(before.contains(before[a]));
                        }
                    }
                    assert(partial_graph(accs, i as int, j as int + 1, g1));
                }
            } else {
                proof {
                    assert forall|w: int, v: usize| 0 <= w < g0.len() implies
                        (#[trigger] g0[w].contains(v) <==> (v < g0.len() && v != w && pair_done(
                            i as int,
                            j as int + 1,
                            if v < w { v as int } else { w },
                            if v < w { w } else { v as int },
                        ) && depends_on(accs, w, v as int))) by {
                    }
                }
            }
            j = j + 1;
        }
        proof {
            let g0 = deps@.map_values(|d: Vec<usize>| d@);
            assert forall|w: int, v: usize| 0 <= w < g0.len() implies
                (#[trigger] g0[w].contains(v) <==> (v < g0.len() && v != w && pair_done(
                    i as int + 1,
                    i as int + 2,
                    if v < w { v as int } else { w },
                    if v < w { w } else { v as int },
                ) && depends_on(accs, w, v as int))) by {
            }
        }
        i = i + 1;
    }
    let g = DependencyGraph { deps };
    proof {
        let gv = g@;
        assert forall|u: int, v: usize| 0 <= u < gv.len() implies
            (#[trigger] gv[u].contains(v) <==> (v < gv.len() && depends_on(access_patterns@, u, v as int))) by {
            assert(pair_done(n as int, n as int + 1, if v < u { v as int } else { u }, if v < u { u } else { v as int }) || v >= n || v == u);
        }
        assert forall|u: int, t: int| 0 <= u < gv.len() && 0 <= t < gv[u].len() implies #[trigger] gv[u][t] < gv.len() by {
            assert(gv[u].contains(gv[u][t]));
        }
    }
    g
}


// ---------------------------------------------------------------------------
// Execution stages
// ---------------------------------------------------------------------------

/// Why no execution order exists.
#[derive(Debug, Clone, Copy, PartialEq, Eq, Structural)]
pub enum ScheduleError {
    /// The dependencies form a cycle; only `processed` of the `total` systems
    /// could be placed in a stage.
    CycleDetected { processed: usize, total: usize },
}

impl ScheduleError {
    /// The error's text: "Cycle detected. Processed {processed}/{total}
    /// systems."
    pub fn message(&self) -> (r: String)
        ensures
            match *self {
                ScheduleError::CycleDetected { processed, total } => r@ == "Cycle detected. Processed "@
                    + decimal(processed as nat) + "/"@ + decimal(total as nat) + " systems."@,
            },
    {
        match self {
            ScheduleError::CycleDetected { processed, total } => {
                let mut s = "Cycle detected. Processed ".to_owned();
                append_decimal(&mut s, *processed);
                s.append("/");
                append_decimal(&mut s, *total);
                s.append(" systems.");
                s
            },
        }
    }
}

/// The stages `st` order the graph `g`: every stage is non-empty and strictly
/// increasing, every node lies in exactly one stage, every dependency of a
/// node lies in an earlier stage, and every node past the first stage has a
/// dependency in the stage just before its own.
pub open spec fn valid_stages(g: Seq<Seq<usize>>, st: Seq<Seq<usize>>) -> bool {
    &&& forall|k: int| 0 <= k < st.len() ==> (#[trigger] st[k]).len() > 0 && strictly_increasing(st[k])
    &&& forall|k: int, v: usize| 0 <= k < st.len() && #[trigger] st[k].contains(v) ==> v < g.len()
    &&& forall|v: usize| v < g.len() ==> #[trigger] in_some_stage(st, v)
    &&& forall|k1: int, k2: int, v: usize|
        0 <= k1 < st.len() && 0 <= k2 < st.len() && #[trigger] st[k1].contains(v) && #[trigger] st[k2].contains(v) ==> k1 == k2
    &&& forall|k: int, v: usize, d: usize|
        0 <= k < st.len() && #[trigger] st[k].contains(v) && #[trigger] g[v as int].contains(d)
            ==> exists|k2: int| 0 <= k2 < k && #[trigger] st[k2].contains(d)
    &&& forall|k: int, v: usize|
        1 <= k < st.len() && #[trigger] st[k].contains(v)
            ==> exists|d: usize| #[trigger] g[v as int].contains(d) && st[k - 1].contains(d)
}

/// Node `v` lies in some stage of `st`.
pub open spec fn in_some_stage(st: Seq<Seq<usize>>, v: usize) -> bool {
    exists|k: int| 0 <= k < st.len() && #[trigger] st[k].contains(v)
}

/// `s` is a non-empty set of nodes each of which depends on a node of `s`.
pub open spec fn stuck_set(g: Seq<Seq<usize>>, s: Set<usize>) -> bool {
    &&& exists|v: usize| #[trigger] s.contains(v)
    &&& forall|v: usize| #[trigger] s.contains(v) ==> v < g.len() && exists|d: usize| #[trigger] g[v as int].contains(d) && s.contains(d)
}

/// The dependencies of `g` contain a cycle: some non-empty set of nodes can
/// never be started, since each of its nodes waits for another one of it.
pub open spec fn has_cycle(g: Seq<Seq<usize>>) -> bool {
    exists|s: Set<usize>| stuck_set(g, s)
}

/// Node `v` can never be staged: it lies in a stuck set, so it waits, directly
/// or not, on a cycle of dependencies.
pub open spec fn blocked(g: Seq<Seq<usize>>, v: usize) -> bool {
    exists|s: Set<usize>| stuck_set(g, s) && #[trigger] s.contains(v)
}

/// The nodes of `g` that can never be staged.
pub open spec fn blocked_nodes(g: Seq<Seq<usize>>) -> Set<int> {
    Set::new(|x: int| 0 <= x < g.len() && blocked(g, x as usize))
}

/// The number of entries of `s` not in `p`.
pub open spec fn count_pending(s: Seq<usize>, p: Set<int>) -> nat
    decreases s.len(),
{
    if s.len() == 0 {
        0
    } else {
        count_pending(s.drop_last(), p) + if p.contains(s.last() as int) { 0nat } else { 1nat }
    }
}

proof fn lemma_count_empty(s: Seq<usize>)
    ensures
        count_pending(s, Set::empty()) == s.len(),
    decreases s.len(),
{
    if s.len() > 0 {
        lemma_count_empty(s.drop_last());
    }
}

proof fn lemma_count_insert(s: Seq<usize>, p: Set<int>, x: usize)
    requires
        strictly_increasing(s),
        !p.contains(x as int),
    ensures
        count_pending(s, p.insert(x as int)) + (if s.contains(x) { 1nat } else { 0nat }) == count_pending(s, p),
    decreases s.len(),
{
    if s.len() > 0 {
        let t = s.drop_last();
        assert(strictly_increasing(t));
        lemma_count_insert(t, p, x);
        if s.last() == x {
            assert(!t.contains(x));
        } else {
            if s.contains(x) {
                let k = choose|k: int| 0 <= k < s.len() && s[k] == x;
                assert(t[k] == x);
            }
            if t.contains(x) {
                let k = choose|k: int| 0 <= k < t.len() && t[k] == x;
                assert(s[k] == x);
            }
        }
    }
}

proof fn lemma_count_zero(s: Seq<usize>, p: Set<int>)
    ensures
        count_pending(s, p) == 0 <==> forall|k: int| 0 <= k < s.len() ==> p.contains(#[trigger] s[k] as int),
    decreases s.len(),
{
    if s.len() > 0 {
        let t = s.drop_last();
        lemma_count_zero(t, p);
        if count_pending(s, p) == 0 {
            assert forall|k: int| 0 <= k < s.len() implies p.contains(#[trigger] s[k] as int) by {
                if k < t.len() {
                    assert(t[k] == s[k]);
                }
            }
        }
        if forall|k: int| 0 <= k < s.len() ==> p.contains(#[trigger] s[k] as int) {
            assert forall|k: int| 0 <= k < t.len() implies p.contains(#[trigger] t[k] as int) by {
                assert(t[k] == s[k]);
            }
            assert(p.contains(s[s.len() - 1] as int));
        }
    }
}

/// Sorts a list of node indices into strictly increasing order.
fn sort_stage(v: &Vec<usize>) -> (r: Vec<usize>)
    ensures
        strictly_increasing(r@),
        forall|x: usize| r@.contains(x) <==> v@.contains(x),
{
    let mut r: Vec<usize> = Vec::new();
    let mut i: usize = 0;
    while i < v.len()
        invariant
            i <= v.len(),
            strictly_increasing(r@),
            forall|x: usize| r@.contains(x) <==> v@.subrange(0, i as int).contains(x),
        decreases v.len() - i,
    {
        insert_sorted(&mut r, v[i]);
        proof {
            let s0 = v@.subrange(0, i as int);
            let s1 = v@.subrange(0, i as int + 1);
            assert forall|x: usize| s1.contains(x) <==> (s0.contains(x) || x == v@[i as int]) by {
                if s1.contains(x) {
                    let k = choose|k: int| 0 <= k < s1.len() && s1[k] == x;
                    if k < i {
                        assert(s0[k] == x);
                    }
                }
                if s0.contains(x) {
                    let k = choose|k: int| 0 <= k < s0.len() && s0[k] == x;
                    assert(s1[k] == x);
                }
                if x == v@[i as int] {
                    assert(s1[i as int] == x);
                }
            }
        }
        i = i + 1;
    }
    assert(v@.subrange(0, v.len() as int) =~= v@);
    r
}

/// The reverse adjacency of `g`: `adj[d]` lists, in increasing order, the
/// nodes that depend on `d`.
fn reverse_adjacency(graph: &DependencyGraph) -> (adj: Vec<Vec<usize>>)
    requires
        graph.wf(),
    ensures
        adj@.len() == graph@.len(),
        forall|d: int| 0 <= d < adj@.len() ==> strictly_increasing(#[trigger] adj@[d]@),
        forall|d: int, x: usize| 0 <= d < adj@.len() ==> (#[trigger] adj@[d]@.contains(x) <==> (x < graph@.len() && graph@[x as int].contains(d as usize))),
{
    let n = graph.node_count();
    let mut adj: Vec<Vec<usize>> = Vec::new();
    let mut k: usize = 0;
    while k < n
        invariant
            k <= n,
            adj@.len() == k,
            forall|u: int| 0 <= u < k ==> (#[trigger] adj@[u])@.len() == 0,
        decreases n - k,
    {
        adj.push(Vec::new());
        k = k + 1;
    }
    let mut u: usize = 0;
    while u < n
        invariant
            n == graph@.len(),
            graph.wf(),
            u <= n,
            adj@.len() == n,
            forall|d: int| 0 <= d < n ==> strictly_increasing(#[trigger] adj@[d]@),
            forall|d: int, x: usize| 0 <= d < n ==> (#[trigger] adj@[d]@.contains(x) <==> (x < u && graph@[x as int].contains(d as usize))),
        decreases n - u,
    {
        let deps = graph.dependencies(u);
        let mut t: usize = 0;
        while t < deps.len()
            invariant
                n == graph@.len(),
                graph.wf(),
                u < n,
                deps@ == graph@[u as int],
                t <= deps.len(),
                adj@.len() == n,
                forall|d: int| 0 <= d < n ==> strictly_increasing(#[trigger] adj@[d]@),
                forall|d: int, x: usize| 0 <= d < n ==> (#[trigger] adj@[d]@.contains(x) <==> (
                    (x < u && graph@[x as int].contains(d as usize))
                    || (x == u && deps@.subrange(0, t as int).contains(d as usize)))),
            decreases deps.len() - t,
        {
            let d = deps[t];
            assert(d < n) by {
                assert(graph@[u as int][t as int] < graph@.len());
            }
            let ghost before = adj@[d as int]@;
            let ghost a0 = adj@;
            assert forall|y: usize| #[trigger] before.contains(y) implies y < u by {
                if y == u {
                    let k2 = choose|k2: int| 0 <= k2 < t && deps@[k2] == d;
                    assert(deps@[k2] < deps@[t as int]);
                }
            }
            adj[d].push(u);
            proof {
                assert(adj@[d as int]@ == before.push(u));
                assert forall|e: int| 0 <= e < n && e != d implies #[trigger] adj@[e] == a0[e] by {}
                assert(strictly_increasing(adj@[d as int]@)) by {
                    assert forall|a: int, b: int| 0 <= a < b < adj@[d as int]@.len() implies #[trigger] adj@[d as int]@[a] < #[trigger] adj@[d as int]@[b] by {
                        assert(before.contains(before[a]));
                    }
                }
                assert forall|e: int, x: usize| 0 <= e < n implies (#[trigger] adj@[e]@.contains(x) <==> (
                    (x < u && graph@[x as int].contains(e as usize))
                    || (x == u && deps@.subrange(0, t as int + 1).contains(e as usize)))) by {
                    let s1 = deps@.subrange(0, t as int + 1);
                    let s0 = deps@.subrange(0, t as int);
                    assert(s1 == s0.push(d));
                    assert(s1[t as int] == d);
                    if e == d {
                        if adj@[e]@.contains(x) && x != u {
                            let q = choose|q: int| 0 <= q < adj@[e]@.len() && adj@[e]@[q] == x;
                            assert(before[q] == x);
                        }
                        if before.contains(x) {
                            let q = choose|q: int| 0 <= q < before.len() && before[q] == x;
                            assert(adj@[e]@[q] == x);
                        }
                        if x == u {
                            assert(adj@[e]@[before.len() as int] == u);
                        }
                    } else {
                        if s1.contains(e as usize) {
                            let q = choose|q: int| 0 <= q < s1.len() && s1[q] == e as usize;
                            assert(s0[q] == e as usize);
                        }
                        if s0.contains(e as usize) {
                            let q = choose|q: int| 0 <= q < s0.len() && s0[q] == e as usize;
                            assert(s1[q] == e as usize);
                        }
                    }
                }
            }
            t = t + 1;
        }
        proof {
            assert(deps@.subrange(0, deps@.len() as int) == deps@);
            assert forall|d: int, x: usize| 0 <= d < n implies (#[trigger] adj@[d]@.contains(x) <==> (x < u + 1 && graph@[x as int].contains(d as usize))) by {
                if x == u && graph@[x as int].contains(d as usize) {
                    assert(deps@.subrange(0, deps@.len() as int).contains(d as usize));
                }
            }
        }
        u = u + 1;
    }
    adj
}



/// The stage lists of `v` as sequences.
pub open spec fn stage_view(v: Seq<Vec<usize>>) -> Seq<Seq<usize>> {
    v.map_values(|s: Vec<usize>| s@)
}

/// Node `v` waits to be scheduled: it has no level yet and all its
/// dependencies have one.
spec fn ready(g: Seq<Seq<usize>>, level: spec_fn(usize) -> int, v: usize) -> bool {
    &&& v < g.len()
    &&& level(v) == -1
    &&& forall|j: int| 0 <= j < g[v as int].len() ==> level(#[trigger] g[v as int][j]) >= 0
}

/// `adj[d]` lists, in increasing order, the nodes that depend on `d`.
spec fn adj_ok(g: Seq<Seq<usize>>, adj: Seq<Vec<usize>>) -> bool {
    &&& adj.len() == g.len()
    &&& forall|d: int| 0 <= d < adj.len() ==> strictly_increasing(#[trigger] adj[d]@)
    &&& forall|d: int, x: usize| 0 <= d < adj.len() ==> (#[trigger] adj[d]@.contains(x) <==> (x < g.len() && g[x as int].contains(d as usize)))
}

/// `deg[v]` counts the dependencies of `v` outside `p`.
spec fn degrees_ok(g: Seq<Seq<usize>>, deg: Seq<usize>, p: Set<int>) -> bool {
    &&& deg.len() == g.len()
    &&& forall|v: usize| v < g.len() ==> #[trigger] deg[v as int] == count_pending(g[v as int], p)
}

/// `p` is the set of nodes that have a level.
spec fn done_ok(level: spec_fn(usize) -> int, p: Set<int>, n: int) -> bool {
    &&& forall|v: usize| v < n ==> (p.contains(v as int) <==> #[trigger] level(v) >= 0)
    &&& forall|x: int| #[trigger] p.contains(x) ==> 0 <= x < n
    &&& p.finite()
}

/// The queue holds exactly the ready nodes, once each.
spec fn queue_ok(g: Seq<Seq<usize>>, level: spec_fn(usize) -> int, q: Seq<usize>) -> bool {
    &&& q.no_duplicates()
    &&& forall|x: usize| q.contains(x) <==> #[trigger] ready(g, level, x)
}

/// The done set after the nodes of `q` are processed.
spec fn with_queue(p: Set<int>, q: Seq<usize>, n: int) -> Set<int> {
    Set::new(|x: int| p.contains(x) || (0 <= x < n && q.contains(x as usize)))
}

/// The levels after the nodes of `q` are given level `k`.
spec fn level_after(level: spec_fn(usize) -> int, q: Seq<usize>, k: int) -> spec_fn(usize) -> int {
    |v: usize| if q.contains(v) { k } else { level(v) }
}

/// The stages built so far agree with the levels.
spec fn stages_match(g: Seq<Seq<usize>>, st: Seq<Seq<usize>>, level: spec_fn(usize) -> int) -> bool {
    &&& forall|k: int| 0 <= k < st.len() ==> (#[trigger] st[k]).len() > 0 && strictly_increasing(st[k])
    &&& forall|k: int, v: usize| 0 <= k < st.len() ==> (#[trigger] st[k].contains(v) <==> (v < g.len() && level(v) == k))
}

/// The levels respect the dependencies.
spec fn levels_ordered(g: Seq<Seq<usize>>, level: spec_fn(usize) -> int) -> bool {
    &&& forall|v: usize, j: int| v < g.len() && level(v) >= 0 && 0 <= j < g[v as int].len()
        ==> 0 <= level(#[trigger] g[v as int][j]) < level(v)
    &&& forall|v: usize| v < g.len() && #[trigger] level(v) >= 1
        ==> exists|j: int| 0 <= j < g[v as int].len() && level(#[trigger] g[v as int][j]) == level(v) - 1
}

/// Every node of `q` has a dependency at level `k - 1` (when `k > 0`).
spec fn queue_linked(g: Seq<Seq<usize>>, level: spec_fn(usize) -> int, q: Seq<usize>, k: int) -> bool {
    k > 0 ==> forall|x: usize| #[trigger] q.contains(x) ==> exists|j: int|
        0 <= j < g[x as int].len() && level(#[trigger] g[x as int][j]) == k - 1
}

/// The number of unfinished dependencies of each node.
fn initial_in_degrees(graph: &DependencyGraph) -> (deg: Vec<usize>)
    ensures
        degrees_ok(graph@, deg@, Set::empty()),
{
    let n = graph.node_count();
    let mut deg: Vec<usize> = Vec::new();
    let mut u: usize = 0;
    while u < n
        invariant
            n == graph@.len(),
            u <= n,
            deg@.len() == u,
            forall|v: usize| v < u ==> #[trigger] deg@[v as int] == count_pending(graph@[v as int], Set::empty()),
        decreases n - u,
    {
        proof {
            lemma_count_empty(graph@[u as int]);
        }
        deg.push(graph.dependencies(u).len());
        u = u + 1;
    }
    deg
}

/// The nodes of in-degree zero, in increasing order.
fn initial_queue(deg: &Vec<usize>) -> (q: Vec<usize>)
    ensures
        strictly_increasing(q@),
        forall|x: usize| q@.contains(x) <==> (x < deg@.len() && deg@[x as int] == 0),
{
    let mut q: Vec<usize> = Vec::new();
    let mut u: usize = 0;
    while u < deg.len()
        invariant
            u <= deg@.len(),
            strictly_increasing(q@),
            forall|x: usize| q@.contains(x) <==> (x < u && deg@[x as int] == 0),
        decreases deg.len() - u,
    {
        if deg[u] == 0 {
            let ghost q0 = q@;
            q.push(u);
            proof {
                assert forall|a: int, b: int| 0 <= a < b < q@.len() implies #[trigger] q@[a] < #[trigger] q@[b] by {
                    if b == q@.len() - 1 {
                        assert(q0.contains(q0[a]));
                    }
                }
                assert forall|x: usize| q@.contains(x) <==> (x < u + 1 && deg@[x as int] == 0) by {
                    if q@.contains(x) && x != u {
                        let k = choose|k: int| 0 <= k < q@.len() && q@[k] == x;
                        assert(q0[k] == x);
                    }
                    if q0.contains(x) {
                        let k = choose|k: int| 0 <= k < q0.len() && q0[k] == x;
                        assert(q@[k] == x);
                    }
                    if x == u {
                        assert(q@[q0.len() as int] == x);
                    }
                }
            }
        }
        u = u + 1;
    }
    q
}

/// Marks one finished node: lowers the in-degree of every node that depends
/// on it and queues those that drop to zero.
fn release_dependents(
    nbrs: &Vec<usize>,
    in_degree: &mut Vec<usize>,
    next: &mut Vec<usize>,
    Ghost(g): Ghost<Seq<Seq<usize>>>,
    Ghost(p): Ghost<Set<int>>,
    Ghost(u): Ghost<usize>,
)
    requires
        strictly_increasing(nbrs@),
        forall|x: usize| #[trigger] nbrs@.contains(x) ==> x < g.len(),
        old(in_degree)@.len() == g.len(),
        forall|v: usize| v < g.len() ==> #[trigger] old(in_degree)@[v as int] == count_pending(g[v as int], p)
            + (if nbrs@.contains(v) { 1nat } else { 0nat }),
        old(next)@.no_duplicates(),
        forall|x: usize| #[trigger] old(next)@.contains(x) ==> x < g.len() && old(in_degree)@[x as int] == 0,
    ensures
        degrees_ok(g, final(in_degree)@, p),
        forall|v: usize| v < g.len() ==> #[trigger] final(in_degree)@[v as int] == if nbrs@.contains(v) { old(in_degree)@[v as int] - 1 } else { old(in_degree)@[v as int] as int },
        final(next)@.no_duplicates(),
        forall|x: usize| #[trigger] final(next)@.contains(x) <==> (old(next)@.contains(x) || (nbrs@.contains(x) && final(in_degree)@[x as int] == 0)),
{
    let ghost deg0 = in_degree@;
    let ghost next0 = next@;
    assert(nbrs@.subrange(0, nbrs@.len() as int) =~= nbrs@);
    assert(nbrs@.subrange(0, 0) =~= Seq::<usize>::empty());
    let mut w: usize = 0;
    while w < nbrs.len()
        invariant
            strictly_increasing(nbrs@),
            forall|x: usize| #[trigger] nbrs@.contains(x) ==> x < g.len(),
            w <= nbrs@.len(),
            in_degree@.len() == g.len(),
            forall|v: usize| v < g.len() ==> #[trigger] in_degree@[v as int] == count_pending(g[v as int], p)
                + (if nbrs@.subrange(w as int, nbrs@.len() as int).contains(v) { 1nat } else { 0nat }),
            forall|v: usize| v < g.len() ==> #[trigger] in_degree@[v as int] == if nbrs@.subrange(0, w as int).contains(v) { deg0[v as int] - 1 } else { deg0[v as int] as int },
            forall|v: usize| v < g.len() ==> #[trigger] deg0[v as int] == count_pending(g[v as int], p)
                + (if nbrs@.contains(v) { 1nat } else { 0nat }),
            next@.no_duplicates(),
            forall|x: usize| #[trigger] next@.contains(x) <==> (next0.contains(x) || (nbrs@.subrange(0, w as int).contains(x) && in_degree@[x as int] == 0)),
            forall|x: usize| #[trigger] next0.contains(x) ==> x < g.len() && deg0[x as int] == 0,
        decreases nbrs@.len() - w,
    {
        let v = nbrs[w];
        let ghost rest = nbrs@.subrange(w as int, nbrs@.len() as int);
        let ghost rest1 = nbrs@.subrange(w as int + 1, nbrs@.len() as int);
        let ghost done0 = nbrs@.subrange(0, w as int);
        let ghost done1 = nbrs@.subrange(0, w as int + 1);
        proof {
            assert(nbrs@.contains(v));
            assert(rest[0] == v);
            assert(!rest1.contains(v)) by {
                if rest1.contains(v) {
                    let a = choose|a: int| 0 <= a < rest1.len() && rest1[a] == v;
                    assert(nbrs@[w as int] < nbrs@[w as int + 1 + a]);
                }
            }
            assert(!done0.contains(v)) by {
                if done0.contains(v) {
                    let a = choose|a: int| 0 <= a < done0.len() && done0[a] == v;
                    assert(nbrs@[a] < nbrs@[w as int]);
                }
            }
            assert(done1[w as int] == v);
            assert forall|x: usize| x != v implies (rest.contains(x) <==> rest1.contains(x)) && (done0.contains(x) <==> done1.contains(x)) by {
                if rest.contains(x) {
                    let a = choose|a: int| 0 <= a < rest.len() && rest[a] == x;
                    assert(rest1[a - 1] == x);
                }
                if rest1.contains(x) {
                    let a = choose|a: int| 0 <= a < rest1.len() && rest1[a] == x;
                    assert(rest[a + 1] == x);
                }
                if done0.contains(x) {
                    let a = choose|a: int| 0 <= a < done0.len() && done0[a] == x;
                    assert(done1[a] == x);
                }
                if done1.contains(x) {
                    let a = choose|a: int| 0 <= a < done1.len() && done1[a] == x;
                    assert(done0[a] == x);
                }
            }
            assert(rest.contains(v));
            assert(in_degree@[v as int] >= 1);
        }
        let ghost deg_before = in_degree@;
        let ghost next_before = next@;
        in_degree[v] = in_degree[v] - 1;
        proof {
            assert forall|x: usize| x < g.len() implies #[trigger] in_degree@[x as int] == count_pending(g[x as int], p)
                + (if rest1.contains(x) { 1nat } else { 0nat }) by {
                if x != v {
                    assert(in_degree@[x as int] == deg_before[x as int]);
                }
            }
            assert forall|x: usize| x < g.len() implies #[trigger] in_degree@[x as int] == if done1.contains(x) { deg0[x as int] - 1 } else { deg0[x as int] as int } by {
                if x != v {
                    assert(in_degree@[x as int] == deg_before[x as int]);
                }
            }
        }
        if in_degree[v] == 0 {
            proof {
                if next_before.contains(v) {
                    if next0.contains(v) {
                        assert(deg0[v as int] == 0);
                        assert(false);
                    }
                }
            }
            next.push(v);
            proof {
                assert forall|a: int, b: int| 0 <= a < next@.len() && 0 <= b < next@.len() && a != b implies next@[a] != next@[b] by {
                    if a < next_before.len() && b < next_before.len() {
                        assert(next_before[a] != next_before[b]);
                    } else if a < next_before.len() {
                        assert(next_before.contains(next_before[a]));
                    } else if b < next_before.len() {
                        assert(next_before.contains(next_before[b]));
                    }
                }
                assert forall|x: usize| #[trigger] next@.contains(x) <==> (next0.contains(x) || (done1.contains(x) && in_degree@[x as int] == 0)) by {
                    if next@.contains(x) && x != v {
                        let a = choose|a: int| 0 <= a < next@.len() && next@[a] == x;
                        assert(next_before[a] == x);
                    }
                    if next_before.contains(x) {
                        let a = choose|a: int| 0 <= a < next_before.len() && next_before[a] == x;
                        assert(next@[a] == x);
                    }
                    if x == v {
                        assert(next@[next_before.len() as int] == v);
                    }
                    if x != v && x < g.len() {
                        assert(in_degree@[x as int] == deg_before[x as int]);
                    }
                }
            }
        } else {
            proof {
                assert forall|x: usize| #[trigger] next@.contains(x) <==> (next0.contains(x) || (done1.contains(x) && in_degree@[x as int] == 0)) by {
                    if x != v && x < g.len() {
                        assert(in_degree@[x as int] == deg_before[x as int]);
                    }
                    if x == v && next0.contains(x) {
                        assert(deg0[v as int] == 0);
                    }
                }
            }
        }
        w = w + 1;
    }
    proof {
        let rest = nbrs@.subrange(w as int, nbrs@.len() as int);
        assert(rest.len() == 0);
        assert(nbrs@.subrange(0, w as int) == nbrs@);
        assert forall|x: usize| x < g.len() implies #[trigger] in_degree@[x as int] == count_pending(g[x as int], p) by {
            assert(!rest.contains(x));
        }
    }
}


/// Runs one round: every queued node is finished, and the nodes all of whose
/// dependencies are now finished are collected for the next round.
fn run_round(
    adj: &Vec<Vec<usize>>,
    in_degree: &mut Vec<usize>,
    queue: &Vec<usize>,
    processed_count: &mut usize,
    Ghost(g): Ghost<Seq<Seq<usize>>>,
    Ghost(level0): Ghost<spec_fn(usize) -> int>,
    Ghost(p0): Ghost<Set<int>>,
) -> (r: (Vec<usize>, Vec<usize>))
    requires
        graph_wf(g),
        adj_ok(g, adj@),
        degrees_ok(g, old(in_degree)@, p0),
        done_ok(level0, p0, g.len() as int),
        p0.len() == *old(processed_count),
        queue_ok(g, level0, queue@),
        levels_ordered(g, level0),
        g.len() <= usize::MAX,
        forall|v: usize| v < g.len() ==> #[trigger] level0(v) >= -1,
    ensures
        r.0@ == queue@,
        degrees_ok(g, final(in_degree)@, with_queue(p0, queue@, g.len() as int)),
        with_queue(p0, queue@, g.len() as int).finite(),
        with_queue(p0, queue@, g.len() as int).len() == *final(processed_count),
        *final(processed_count) == *old(processed_count) + queue@.len(),
        *final(processed_count) <= g.len(),
        r.1@.no_duplicates(),
        forall|x: usize| #[trigger] r.1@.contains(x) <==> (x < g.len() && level0(x) == -1 && !queue@.contains(x) && final(in_degree)@[x as int] == 0),
{
    let ghost n = g.len() as int;
    let mut current_stage: Vec<usize> = Vec::new();
    let mut next: Vec<usize> = Vec::new();
    let ghost mut pset = p0;
    assert(with_queue(p0, queue@.subrange(0, 0), n) =~= p0);
    proof {
        vstd::set_lib::lemma_int_range(0, n);
        vstd::set_lib::lemma_len_subset(p0, vstd::set_lib::set_int_range(0, n));
        assert forall|x: usize| x < n && level0(x) == -1 && !queue@.contains(x) implies in_degree@[x as int] != 0 by {
            lemma_count_zero(g[x as int], p0);
            if in_degree@[x as int] == 0 {
                assert forall|j: int| 0 <= j < g[x as int].len() implies level0(#[trigger] g[x as int][j]) >= 0 by {
                    assert(p0.contains(g[x as int][j] as int));
                    assert(g[x as int][j] < n);
                }
                assert(ready(g, level0, x));
            }
        }
    }
    let mut t: usize = 0;
    while t < queue.len()
        invariant
            graph_wf(g),
            n == g.len(),
            adj_ok(g, adj@),
            done_ok(level0, p0, n),
            queue_ok(g, level0, queue@),
            levels_ordered(g, level0),
            g.len() <= usize::MAX,
            forall|v: usize| v < g.len() ==> #[trigger] level0(v) >= -1,
            t <= queue@.len(),
            pset == with_queue(p0, queue@.subrange(0, t as int), n),
            degrees_ok(g, in_degree@, pset),
            pset.finite(),
            pset.len() == *processed_count,
            *processed_count == p0.len() + t,
            *processed_count <= n,
            current_stage@ == queue@.subrange(0, t as int),
            next@.no_duplicates(),
            forall|x: usize| #[trigger] next@.contains(x) <==> (x < n && level0(x) == -1 && !queue@.contains(x) && in_degree@[x as int] == 0),
        decreases queue.len() - t,
    {
        let u = queue[t];
        current_stage.push(u);
        let ghost q_t = queue@.subrange(0, t as int);
        let ghost q_t1 = queue@.subrange(0, t as int + 1);
        proof {
            assert(q_t1 == q_t.push(u));
            assert(queue@.contains(u));
            assert(ready(g, level0, u));
            assert(!q_t.contains(u)) by {
                if q_t.contains(u) {
                    let a = choose|a: int| 0 <= a < q_t.len() && q_t[a] == u;
                    assert(queue@[a] == queue@[t as int]);
                }
            }
            assert(!pset.contains(u as int));
            assert forall|x: int| #[trigger] pset.contains(x) implies 0 <= x < n by {
                if !p0.contains(x) {
                    assert(q_t.contains(x as usize));
                }
            }
            lemma_pset_grow(pset, u as int, n);
            assert(with_queue(p0, q_t1, n) =~= pset.insert(u as int)) by {
                assert forall|x: int| with_queue(p0, q_t1, n).contains(x) <==> pset.insert(u as int).contains(x) by {
                    if 0 <= x < n && q_t1.contains(x as usize) && x != u as int {
                        let a = choose|a: int| 0 <= a < q_t1.len() && q_t1[a] == x as usize;
                        assert(a != t);
                        assert(q_t[a] == x as usize);
                    }
                    if 0 <= x < n && q_t.contains(x as usize) {
                        let a = choose|a: int| 0 <= a < q_t.len() && q_t[a] == x as usize;
                        assert(q_t1[a] == x as usize);
                    }
                    if x == u as int {
                        assert(q_t1[t as int] == u);
                    }
                }
            }
            assert forall|v: usize| v < n implies #[trigger] in_degree@[v as int] == count_pending(g[v as int], pset.insert(u as int))
                + (if adj@[u as int]@.contains(v) { 1nat } else { 0nat }) by {
                lemma_count_insert(g[v as int], pset, u);
            }
            assert forall|x: usize| #[trigger] next@.contains(x) implies x < g.len() && in_degree@[x as int] == 0 by {}
        }
        *processed_count = *processed_count + 1;
        let ghost deg_before = in_degree@;
        let ghost next_before = next@;
        release_dependents(&adj[u], in_degree, &mut next, Ghost(g), Ghost(pset.insert(u as int)), Ghost(u));
        proof {
            let p_new = pset.insert(u as int);
            assert forall|x: usize| #[trigger] next@.contains(x) <==> (x < n && level0(x) == -1 && !queue@.contains(x) && in_degree@[x as int] == 0) by {
                if x < n && !adj@[u as int]@.contains(x) {
                    assert(in_degree@[x as int] == deg_before[x as int]);
                }
                if next_before.contains(x) {
                    assert(x < n);
                }
                if adj@[u as int]@.contains(x) {
                    assert(x < n && g[x as int].contains(u));
                    let j = choose|j: int| 0 <= j < g[x as int].len() && g[x as int][j] == u;
                    if level0(x) >= 0 {
                        assert(0 <= level0(g[x as int][j]));
                    }
                    if queue@.contains(x) {
                        assert(ready(g, level0, x));
                        assert(level0(g[x as int][j]) >= 0);
                    }
                    if next_before.contains(x) {
                        assert(deg_before[x as int] == 0);
                        lemma_count_zero(g[x as int], pset);
                        assert(!pset.contains(g[x as int][j] as int));
                    }
                    assert(!next_before.contains(x));
                    assert(next@.contains(x) <==> in_degree@[x as int] == 0);
                    assert(level0(x) == -1);
                    assert(!queue@.contains(x));
                }
            }
            pset = p_new;
        }
        t = t + 1;
    }
    assert(queue@.subrange(0, t as int) =~= queue@);
    (current_stage, next)
}


/// Adding a new node of `0..n` to a set of such nodes keeps it within `n`.
proof fn lemma_pset_grow(p: Set<int>, u: int, n: int)
    requires
        p.finite(),
        0 <= u < n,
        !p.contains(u),
        forall|x: int| #[trigger] p.contains(x) ==> 0 <= x < n,
    ensures
        p.insert(u).finite(),
        p.insert(u).len() == p.len() + 1,
        p.insert(u).len() <= n,
{
    vstd::set_lib::lemma_int_range(0, n);
    assert(p.insert(u).subset_of(vstd::set_lib::set_int_range(0, n)));
    vstd::set_lib::lemma_len_subset(p.insert(u), vstd::set_lib::set_int_range(0, n));
}


/// What one round does to the levels, the stages and the queue.
proof fn lemma_round_effect(
    g: Seq<Seq<usize>>,
    st0: Seq<Seq<usize>>,
    level0: spec_fn(usize) -> int,
    p0: Set<int>,
    queue: Seq<usize>,
    stage: Seq<usize>,
    next: Seq<usize>,
    deg: Seq<usize>,
    k: int,
)
    requires
        graph_wf(g),
        g.len() <= usize::MAX,
        stages_match(g, st0, level0),
        levels_ordered(g, level0),
        st0.len() == k,
        forall|v: usize| v < g.len() ==> -1 <= #[trigger] level0(v) < k,
        done_ok(level0, p0, g.len() as int),
        queue_ok(g, level0, queue),
        queue.len() > 0,
        queue_linked(g, level0, queue, k),
        strictly_increasing(stage),
        forall|x: usize| stage.contains(x) <==> queue.contains(x),
        next.no_duplicates(),
        forall|x: usize| #[trigger] next.contains(x) <==> (x < g.len() && level0(x) == -1 && !queue.contains(x) && deg[x as int] == 0),
        degrees_ok(g, deg, with_queue(p0, queue, g.len() as int)),
    ensures
        stages_match(g, st0.push(stage), level_after(level0, queue, k)),
        levels_ordered(g, level_after(level0, queue, k)),
        forall|v: usize| v < g.len() ==> -1 <= #[trigger] level_after(level0, queue, k)(v) < k + 1,
        done_ok(level_after(level0, queue, k), with_queue(p0, queue, g.len() as int), g.len() as int),
        queue_ok(g, level_after(level0, queue, k), next),
        queue_linked(g, level_after(level0, queue, k), next, k + 1),
{
    let n = g.len() as int;
    let level = level_after(level0, queue, k);
    let p1 = with_queue(p0, queue, n);
    let st1 = st0.push(stage);
    assert forall|v: usize| v < n implies #[trigger] level(v) == if queue.contains(v) { k } else { level0(v) } by {}
    assert forall|x: usize| #[trigger] queue.contains(x) implies x < n && level0(x) == -1 by {
        assert(ready(g, level0, x));
    }
    // stages agree with the levels
    assert forall|kk: int| 0 <= kk < st1.len() implies (#[trigger] st1[kk]).len() > 0 && strictly_increasing(st1[kk]) by {
        if kk == k {
            assert(queue.contains(queue[0]));
            assert(stage.contains(queue[0]));
        } else {
            assert(st1[kk] == st0[kk]);
        }
    }
    assert forall|kk: int, v: usize| 0 <= kk < st1.len() implies (#[trigger] st1[kk].contains(v) <==> (v < n && level(v) == kk)) by {
        if kk == k {
            assert(st1[kk] == stage);
        } else {
            assert(st1[kk] == st0[kk]);
        }
    }
    // the levels still respect the dependencies
    assert forall|v: usize, j: int| v < n && level(v) >= 0 && 0 <= j < g[v as int].len()
        implies 0 <= level(#[trigger] g[v as int][j]) < level(v) by {
        let d = g[v as int][j];
        assert(d < n);
        if queue.contains(v) {
            assert(ready(g, level0, v));
            assert(level0(d) >= 0);
        } else {
            assert(0 <= level0(d) < level0(v));
        }
    }
    assert forall|v: usize| v < n && #[trigger] level(v) >= 1
        implies exists|j: int| 0 <= j < g[v as int].len() && level(#[trigger] g[v as int][j]) == level(v) - 1 by {
        if queue.contains(v) {
            let j = choose|j: int| 0 <= j < g[v as int].len() && level0(#[trigger] g[v as int][j]) == k - 1;
            let d = g[v as int][j];
            assert(d < n);
            assert(level(g[v as int][j]) == level(v) - 1);
        } else {
            assert(level0(v) >= 1);
            let j = choose|j: int| 0 <= j < g[v as int].len() && level0(#[trigger] g[v as int][j]) == level0(v) - 1;
            let d = g[v as int][j];
            assert(d < n);
            assert(level(g[v as int][j]) == level(v) - 1);
        }
    }
    // the done set
    assert forall|v: usize| v < n implies (p1.contains(v as int) <==> #[trigger] level(v) >= 0) by {}
    assert forall|x: int| #[trigger] p1.contains(x) implies 0 <= x < n by {}
    vstd::set_lib::lemma_int_range(0, n);
    assert(p1.subset_of(vstd::set_lib::set_int_range(0, n)));
    vstd::set_lib::lemma_len_subset(p1, vstd::set_lib::set_int_range(0, n));
    // the new queue is exactly the nodes that became ready
    assert forall|x: usize| #[trigger] next.contains(x) <==> ready(g, level, x) by {
        if x < n {
            lemma_count_zero(g[x as int], p1);
            if next.contains(x) {
                assert forall|j: int| 0 <= j < g[x as int].len() implies level(#[trigger] g[x as int][j]) >= 0 by {
                    assert(p1.contains(g[x as int][j] as int));
                    assert(g[x as int][j] < n);
                }
            }
            if ready(g, level, x) {
                assert(level0(x) == -1);
                assert(!queue.contains(x));
                assert forall|j: int| 0 <= j < g[x as int].len() implies p1.contains(#[trigger] g[x as int][j] as int) by {
                    assert(level(g[x as int][j]) >= 0);
                    assert(g[x as int][j] < n);
                }
            }
        }
    }
    assert forall|x: usize| #[trigger] next.contains(x) implies exists|j: int|
        0 <= j < g[x as int].len() && level(#[trigger] g[x as int][j]) == k by {
        assert(!ready(g, level0, x));
        let j = choose|j: int| 0 <= j < g[x as int].len() && !(level0(#[trigger] g[x as int][j]) >= 0);
        let d = g[x as int][j];
        assert(d < n);
        lemma_count_zero(g[x as int], p1);
        assert(p1.contains(d as int));
        assert(queue.contains(d));
        assert(level(g[x as int][j]) == k);
    }
}

/// When the queue runs dry before every node is finished, the unfinished
/// nodes form a stuck set.
proof fn lemma_finish_cycle(g: Seq<Seq<usize>>, level: spec_fn(usize) -> int, p: Set<int>, processed: nat)
    requires
        graph_wf(g),
        done_ok(level, p, g.len() as int),
        p.len() == processed,
        processed != g.len(),
        g.len() <= usize::MAX,
        forall|v: usize| v < g.len() ==> #[trigger] level(v) >= -1,
        forall|x: usize| !#[trigger] ready(g, level, x),
    ensures
        has_cycle(g),
        processed < g.len(),
        stuck_set(g, Set::new(|v: usize| v < g.len() && level(v) == -1)),
{
    let n = g.len() as int;
    vstd::set_lib::lemma_int_range(0, n);
    assert(p.subset_of(vstd::set_lib::set_int_range(0, n)));
    vstd::set_lib::lemma_len_subset(p, vstd::set_lib::set_int_range(0, n));
    let s = Set::new(|v: usize| v < n && level(v) == -1);
    if forall|v: usize| v < n ==> #[trigger] level(v) >= 0 {
        assert(vstd::set_lib::set_int_range(0, n).subset_of(p)) by {
            assert forall|x: int| vstd::set_lib::set_int_range(0, n).contains(x) implies p.contains(x) by {
                assert(level(x as usize) >= 0);
                assert(x as usize as int == x);
            }
        }
        vstd::set_lib::lemma_len_subset(vstd::set_lib::set_int_range(0, n), p);
        assert(false);
    }
    let v0 = choose|v: usize| !(v < n ==> #[trigger] level(v) >= 0);
    assert(s.contains(v0));
    assert forall|v: usize| #[trigger] s.contains(v) implies v < g.len() && exists|d: usize| #[trigger] g[v as int].contains(d) && s.contains(d) by {
        assert(!ready(g, level, v));
        let j = choose|j: int| 0 <= j < g[v as int].len() && !(level(#[trigger] g[v as int][j]) >= 0);
        let d = g[v as int][j];
        assert(d < n);
        assert(g[v as int].contains(d));
        assert(s.contains(d));
    }
    assert(stuck_set(g, s));
}

/// A node with a level lies in no stuck set.
proof fn lemma_leveled_not_stuck(g: Seq<Seq<usize>>, level: spec_fn(usize) -> int, s: Set<usize>, v: usize)
    requires
        graph_wf(g),
        levels_ordered(g, level),
        stuck_set(g, s),
        v < g.len(),
        level(v) >= 0,
    ensures
        !s.contains(v),
    decreases level(v),
{
    if s.contains(v) {
        let d = choose|d: usize| #[trigger] g[v as int].contains(d) && s.contains(d);
        let j = choose|j: int| 0 <= j < g[v as int].len() && g[v as int][j] == d;
        assert(0 <= level(g[v as int][j]) < level(v));
        assert(d < g.len());
        lemma_leveled_not_stuck(g, level, s, d);
    }
}

/// The unfinished nodes are blocked, and the finished ones are not.
proof fn lemma_unfinished_are_blocked(g: Seq<Seq<usize>>, level: spec_fn(usize) -> int, p: Set<int>, x: int)
    requires
        graph_wf(g),
        done_ok(level, p, g.len() as int),
        levels_ordered(g, level),
        forall|v: usize| v < g.len() ==> #[trigger] level(v) >= -1,
        stuck_set(g, Set::new(|v: usize| v < g.len() && level(v) == -1)),
        0 <= x < g.len(),
        g.len() <= usize::MAX,
    ensures
        blocked(g, x as usize) <==> !p.contains(x),
{
    let v = x as usize;
    assert(v as int == x);
    let s0 = Set::new(|w: usize| w < g.len() && level(w) == -1);
    if !p.contains(x) {
        assert(s0.contains(v));
    } else if blocked(g, v) {
        let s = choose|s: Set<usize>| stuck_set(g, s) && #[trigger] s.contains(v);
        lemma_leveled_not_stuck(g, level, s, v);
    }
}

/// When the queue runs dry, the nodes left without a level are exactly the
/// blocked ones, so the count of finished nodes is the count of the others.
proof fn lemma_processed_count(g: Seq<Seq<usize>>, level: spec_fn(usize) -> int, p: Set<int>, processed: nat)
    requires
        graph_wf(g),
        done_ok(level, p, g.len() as int),
        levels_ordered(g, level),
        p.len() == processed,
        forall|v: usize| v < g.len() ==> #[trigger] level(v) >= -1,
        stuck_set(g, Set::new(|v: usize| v < g.len() && level(v) == -1)),
        g.len() <= usize::MAX,
    ensures
        processed == g.len() - blocked_nodes(g).len(),
{
    let n = g.len() as int;
    let range = vstd::set_lib::set_int_range(0, n);
    vstd::set_lib::lemma_int_range(0, n);
    let rest = range.difference(p);
    assert forall|x: int| #[trigger] blocked_nodes(g).contains(x) <==> rest.contains(x) by {
        if 0 <= x < n {
            lemma_unfinished_are_blocked(g, level, p, x);
        }
    }
    assert(blocked_nodes(g) =~= rest);
    assert(p.subset_of(range));
    vstd::set_lib::lemma_len_subset(p, range);
    vstd::set_lib::lemma_set_difference_len(range, p);
    assert(range.intersect(p) =~= p);
}

/// When every node is finished, the stages are valid.
proof fn lemma_finish_ok(g: Seq<Seq<usize>>, st: Seq<Seq<usize>>, level: spec_fn(usize) -> int, p: Set<int>)
    requires
        graph_wf(g),
        done_ok(level, p, g.len() as int),
        p.len() == g.len(),
        forall|v: usize| v < g.len() ==> -1 <= #[trigger] level(v) < st.len(),
        stages_match(g, st, level),
        levels_ordered(g, level),
    ensures
        valid_stages(g, st),
{
    let n = g.len() as int;
    assert forall|v: usize| v < n implies #[trigger] level(v) >= 0 by {
        if level(v) < 0 {
            assert(!p.contains(v as int));
            vstd::set_lib::lemma_int_range(0, n);
            assert(p.subset_of(vstd::set_lib::set_int_range(0, n).remove(v as int)));
            vstd::set_lib::lemma_len_subset(p, vstd::set_lib::set_int_range(0, n).remove(v as int));
            assert(false);
        }
    }
    assert forall|v: usize| v < g.len() implies #[trigger] in_some_stage(st, v) by {
        assert(st[level(v)].contains(v));
    }
    assert forall|k1: int, k2: int, v: usize|
        0 <= k1 < st.len() && 0 <= k2 < st.len() && #[trigger] st[k1].contains(v) && #[trigger] st[k2].contains(v) implies k1 == k2 by {}
    assert forall|k: int, v: usize, d: usize|
        0 <= k < st.len() && #[trigger] st[k].contains(v) && #[trigger] g[v as int].contains(d)
        implies exists|k2: int| 0 <= k2 < k && #[trigger] st[k2].contains(d) by {
        let j = choose|j: int| 0 <= j < g[v as int].len() && g[v as int][j] == d;
        assert(0 <= level(g[v as int][j]) < level(v));
        assert(d < n);
        assert(st[level(d)].contains(d));
    }
    assert forall|k: int, v: usize| 1 <= k < st.len() && #[trigger] st[k].contains(v)
        implies exists|d: usize| #[trigger] g[v as int].contains(d) && st[k - 1].contains(d) by {
        assert(level(v) == k);
        let j = choose|j: int| 0 <= j < g[v as int].len() && level(#[trigger] g[v as int][j]) == level(v) - 1;
        let d = g[v as int][j];
        assert(d < n);
        assert(g[v as int].contains(d));
        assert(st[k - 1].contains(d));
    }
}

/// Groups the systems of `graph` into execution stages: the first stage holds
/// the systems without dependencies, and each further stage the systems all of
/// whose dependencies lie in the stages before it, with one in the stage just
/// before. Each stage is sorted. Fails exactly when the dependencies contain a
/// cycle.
pub fn calculate_execution_stages(graph: &DependencyGraph) -> (r: Result<Vec<Vec<usize>>, ScheduleError>)
    requires
        graph.wf(),
    ensures
        r is Ok <==> !has_cycle(graph@),
        r matches Ok(st) ==> valid_stages(graph@, stage_view(st@)),
        r matches Err(ScheduleError::CycleDetected { processed, total }) ==> total == graph@.len() && processed < total && has_cycle(graph@)
            && processed == total - blocked_nodes(graph@).len(),
{
    let ghost g = graph@;
    let n = graph.node_count();
    let adj = reverse_adjacency(graph);
    let mut in_degree = initial_in_degrees(graph);
    let mut queue = initial_queue(&in_degree);
    let ghost mut level: spec_fn(usize) -> int = |v: usize| -1int;
    let ghost mut pset: Set<int> = Set::empty();
    proof {
        assert forall|x: usize| queue@.contains(x) <==> #[trigger] ready(g, level, x) by {
            if x < n {
                lemma_count_empty(g[x as int]);
                if g[x as int].len() > 0 {
                    assert(level(g[x as int][0]) < 0);
                }
            }
        }
        assert forall|a: int, b: int| 0 <= a < queue@.len() && 0 <= b < queue@.len() && a != b implies queue@[a] != queue@[b] by {
            if a < b { assert(queue@[a] < queue@[b]); } else { assert(queue@[b] < queue@[a]); }
        }
    }
    let mut stages: Vec<Vec<usize>> = Vec::new();
    let mut processed_count: usize = 0;
    while queue.len() > 0
        invariant
            n == g.len(),
            g == graph@,
            graph_wf(g),
            adj_ok(g, adj@),
            degrees_ok(g, in_degree@, pset),
            done_ok(level, pset, n as int),
            pset.len() == processed_count,
            processed_count <= n,
            forall|v: usize| v < n ==> -1 <= #[trigger] level(v) < stages@.len(),
            stages_match(g, stage_view(stages@), level),
            levels_ordered(g, level),
            queue_ok(g, level, queue@),
            queue_linked(g, level, queue@, stages@.len() as int),
        decreases n - processed_count,
    {
        let ghost k = stages@.len() as int;
        let (current_stage, next) = run_round(&adj, &mut in_degree, &queue, &mut processed_count, Ghost(g), Ghost(level), Ghost(pset));
        let stage = sort_stage(&current_stage);
        proof {
            lemma_round_effect(g, stage_view(stages@), level, pset, queue@, stage@, next@, in_degree@, k);
            level = level_after(level, queue@, k);
            pset = with_queue(pset, queue@, n as int);
        }
        let ghost st0 = stages@;
        stages.push(stage);
        proof {
            assert(stage_view(stages@) == stage_view(st0).push(stage@));
        }
        queue = next;
    }
    proof {
        assert forall|x: usize| !#[trigger] ready(g, level, x) by {
            assert(!queue@.contains(x));
        }
    }
    if processed_count != n {
        proof {
            lemma_finish_cycle(g, level, pset, processed_count as nat);
            lemma_processed_count(g, level, pset, processed_count as nat);
        }
        return Err(ScheduleError::CycleDetected { processed: processed_count, total: n });
    }
    proof {
        lemma_finish_ok(g, stage_view(stages@), level, pset);
        lemma_valid_stages_acyclic(g, stage_view(stages@));
    }
    Ok(stages)
}


/// No node of a stuck set lies in stage `k` or before.
proof fn lemma_stuck_not_staged(g: Seq<Seq<usize>>, st: Seq<Seq<usize>>, s: Set<usize>, k: int)
    requires
        valid_stages(g, st),
        stuck_set(g, s),
        0 <= k < st.len(),
    ensures
        forall|v: usize| #[trigger] st[k].contains(v) ==> !s.contains(v),
    decreases k,
{
    assert forall|v: usize| #[trigger] st[k].contains(v) implies !s.contains(v) by {
        if s.contains(v) {
            let d = choose|d: usize| #[trigger] g[v as int].contains(d) && s.contains(d);
            let k2 = choose|k2: int| 0 <= k2 < k && #[trigger] st[k2].contains(d);
            lemma_stuck_not_staged(g, st, s, k2);
        }
    }
}

/// A graph that has valid stages has no cycle.
pub proof fn lemma_valid_stages_acyclic(g: Seq<Seq<usize>>, st: Seq<Seq<usize>>)
    requires
        valid_stages(g, st),
    ensures
        !has_cycle(g),
{
    if has_cycle(g) {
        let s = choose|s: Set<usize>| stuck_set(g, s);
        let v = choose|v: usize| #[trigger] s.contains(v);
        assert(v < g.len());
        assert(in_some_stage(st, v));
        let k = choose|k: int| 0 <= k < st.len() && #[trigger] st[k].contains(v);
        lemma_stuck_not_staged(g, st, s, k);
    }
}


// ---------------------------------------------------------------------------
// Registry and scheduler
// ---------------------------------------------------------------------------

/// System `v` has not run yet and every system it depends on has.
pub open spec fn runnable(g: Seq<Seq<usize>>, done: Seq<bool>, v: int) -> bool {
    &&& !done[v]
    &&& forall|k: int| 0 <= k < g[v].len() ==> done[#[trigger] g[v][k] as int]
}

/// The systems that can run next, in increasing order: those that have not
/// run (`done` is false for them) and whose dependencies have all run.
pub fn ready_systems(graph: &DependencyGraph, done: &Vec<bool>) -> (r: Vec<usize>)
    requires
        graph.wf(),
        done@.len() == graph@.len(),
    ensures
        strictly_increasing(r@),
        forall|v: usize| r@.contains(v) <==> (v < graph@.len() && runnable(graph@, done@, v as int)),
{
    let n = graph.node_count();
    let mut out: Vec<usize> = Vec::new();
    let mut v: usize = 0;
    while v < n
        invariant
            n == graph@.len(),
            v <= n,
            graph.wf(),
            done@.len() == n,
            strictly_increasing(out@),
            forall|k: int| 0 <= k < out@.len() ==> #[trigger] out@[k] < v,
            forall|x: usize| out@.contains(x) <==> (x < v && runnable(graph@, done@, x as int)),
        decreases n - v,
    {
        let deps = graph.dependencies(v);
        let mut all_done = !done[v];
        let mut k: usize = 0;
        while k < deps.len() && all_done
            invariant
                v < n,
                n == graph@.len(),
                done@.len() == n,
                graph.wf(),
                deps@ == graph@[v as int],
                k <= deps@.len(),
                all_done ==> !done@[v as int],
                all_done ==> forall|j: int| 0 <= j < k ==> done@[#[trigger] deps@[j] as int],
                !all_done ==> !runnable(graph@, done@, v as int),
            decreases deps@.len() - k,
        {
            assert(deps@[k as int] < n);
            if !done[deps[k]] {
                all_done = false;
            }
            k = k + 1;
        }
        let ghost before = out@;
        if all_done {
            out.push(v);
            proof {
                assert forall|a: int, b: int| 0 <= a < b < out@.len() implies out@[a] < out@[b] by {
                    if b == out@.len() - 1 {
                        assert(out@[a] == before[a]);
                    } else {
                        assert(out@[a] == before[a] && out@[b] == before[b]);
                    }
                }
                assert forall|x: usize| out@.contains(x) <==> (x < v + 1 && runnable(graph@, done@, x as int)) by {
                    if out@.contains(x) && x != v {
                        let t = choose|t: int| 0 <= t < out@.len() && out@[t] == x;
                        assert(before[t] == x);
                        assert(before.contains(x));
                    }
                    if x < v && runnable(graph@, done@, x as int) {
                        assert(before.contains(x));
                        let t = choose|t: int| 0 <= t < before.len() && before[t] == x;
                        assert(out@[t] == x);
                    }
                    if x == v {
                        assert(out@[out@.len() - 1] == x);
                    }
                }
            }
        } else {
            proof {
                assert forall|x: usize| out@.contains(x) <==> (x < v + 1 && runnable(graph@, done@, x as int)) by {
                    if out@.contains(x) {
                        assert(x < v);
                    }
                }
            }
        }
        v = v + 1;
    }
    out
}


/// Running systems wave by wave reproduces the stages: when exactly the
/// systems of the first `k` stages have run, the systems ready to run are
/// those of stage `k`.
pub proof fn lemma_ready_is_next_stage(g: Seq<Seq<usize>>, st: Seq<Seq<usize>>, done: Seq<bool>, k: int)
    requires
        graph_wf(g),
        valid_stages(g, st),
        0 <= k < st.len(),
        done.len() == g.len(),
        forall|v: usize| #![trigger done[v as int]] v < g.len() ==> (done[v as int] <==> exists|k2: int| 0 <= k2 < k && #[trigger] st[k2].contains(v)),
    ensures
        forall|v: usize| v < g.len() && runnable(g, done, v as int) <==> #[trigger] st[k].contains(v),
{
    assert forall|v: usize| v < g.len() && runnable(g, done, v as int) <==> #[trigger] st[k].contains(v) by {
        if st[k].contains(v) {
            assert(v < g.len());
            if done[v as int] {
                let k2 = choose|k2: int| 0 <= k2 < k && #[trigger] st[k2].contains(v);
                assert(false);
            }
            assert forall|j: int| 0 <= j < g[v as int].len() implies done[#[trigger] g[v as int][j] as int] by {
                let d = g[v as int][j];
                assert(g[v as int].contains(d));
                let k2 = choose|k2: int| 0 <= k2 < k && #[trigger] st[k2].contains(d);
                assert(d < g.len());
                assert(st[k2].contains(d));
                assert(done[d as int]);
            }
        }
        if v < g.len() && runnable(g, done, v as int) {
            assert(in_some_stage(st, v));
            let m = choose|m: int| 0 <= m < st.len() && #[trigger] st[m].contains(v);
            if m < k {
                assert(st[m].contains(v));
                assert(done[v as int]);
            }
            if m > k {
                let d = choose|d: usize| #[trigger] g[v as int].contains(d) && st[m - 1].contains(d);
                let j = choose|j: int| 0 <= j < g[v as int].len() && g[v as int][j] == d;
                assert(done[g[v as int][j] as int]);
                assert(d < g.len());
                let k2 = choose|k2: int| 0 <= k2 < k && #[trigger] st[k2].contains(d);
                assert(st[m - 1].contains(d));
                assert(false);
            }
        }
    }
}


/// No two of the systems whose accesses are listed conflict.
pub open spec fn pairwise_conflict_free(accs: Seq<SystemAccess>) -> bool {
    forall|i: int, j: int| 0 <= i < accs.len() && 0 <= j < accs.len() && i != j ==> !#[trigger] system_conflict(accs[i], accs[j])
}

/// Node `v` lies in one of the waves.
pub open spec fn ran_in(waves: Seq<Seq<usize>>, v: usize) -> bool {
    exists|k: int| 0 <= k < waves.len() && #[trigger] waves[k].contains(v)
}

/// For each of the nodes `0..n`, whether it ran in one of the waves.
pub open spec fn done_flags(n: nat, waves: Seq<Seq<usize>>) -> Seq<bool> {
    Seq::new(n, |v: int| ran_in(waves, v as usize))
}

/// `waves` is a run of the graph wave by wave: each wave is non-empty,
/// strictly increasing, and holds exactly the nodes that are runnable once
/// the waves before it have run.
pub open spec fn wave_run(g: Seq<Seq<usize>>, waves: Seq<Seq<usize>>) -> bool {
    forall|k: int| 0 <= k < waves.len() ==> {
        &&& (#[trigger] waves[k]).len() > 0
        &&& strictly_increasing(waves[k])
        &&& forall|v: usize| waves[k].contains(v) <==> (v < g.len() && runnable(g, done_flags(g.len(), waves.take(k)), v as int))
    }
}

/// The number of `false` entries of `s`.
pub open spec fn count_false(s: Seq<bool>) -> nat
    decreases s.len(),
{
    if s.len() == 0 {
        0
    } else {
        count_false(s.drop_last()) + if s.last() { 0nat } else { 1nat }
    }
}

proof fn lemma_count_false_set(s: Seq<bool>, i: int)
    requires
        0 <= i < s.len(),
        !s[i],
    ensures
        count_false(s.update(i, true)) + 1 == count_false(s),
    decreases s.len(),
{
    let t = s.update(i, true);
    if i == s.len() - 1 {
        assert(t.drop_last() =~= s.drop_last());
    } else {
        assert(t.drop_last() =~= s.drop_last().update(i, true));
        lemma_count_false_set(s.drop_last(), i);
    }
}

/// Runs the graph wave by wave: each wave holds the systems whose
/// dependencies all ran in earlier waves; the run stops when no system is
/// left to run. Also tells whether every system ran (no system waits on a
/// cycle).
pub fn run_waves(graph: &DependencyGraph) -> (r: (Vec<Vec<usize>>, bool))
    requires
        graph.wf(),
    ensures
        wave_run(graph@, stage_view(r.0@)),
        forall|v: usize| v < graph@.len() ==> !runnable(graph@, done_flags(graph@.len(), stage_view(r.0@)), v as int),
        r.1 == forall|v: usize| v < graph@.len() ==> ran_in(stage_view(r.0@), v),
{
    let ghost g = graph@;
    let n = graph.node_count();
    let mut done: Vec<bool> = Vec::new();
    let mut i: usize = 0;
    while i < n
        invariant
            i <= n,
            done@ == Seq::new(i as nat, |v: int| false),
        decreases n - i,
    {
        done.push(false);
        i = i + 1;
        assert(done@ =~= Seq::new(i as nat, |v: int| false));
    }
    let mut waves: Vec<Vec<usize>> = Vec::new();
    assert(done@ =~= done_flags(n as nat, stage_view(waves@)));
    loop
        invariant
            g == graph@,
            graph.wf(),
            n == g.len(),
            done@ == done_flags(n as nat, stage_view(waves@)),
            wave_run(g, stage_view(waves@)),
        ensures
            done@ == done_flags(n as nat, stage_view(waves@)),
            wave_run(g, stage_view(waves@)),
            forall|v: usize| v < n ==> !runnable(g, done@, v as int),
        decreases count_false(done@),
    {
        let wave = ready_systems(graph, &done);
        if wave.len() == 0 {
            proof {
                assert forall|v: usize| v < n implies !runnable(g, done@, v as int) by {
                    if runnable(g, done@, v as int) {
                        assert(wave@.contains(v));
                    }
                }
            }
            break;
        }
        let ghost done0 = done@;
        let ghost w0 = stage_view(waves@);
        let mut j: usize = 0;
        while j < wave.len()
            invariant
                done@.len() == n,
                n == g.len(),
                j <= wave@.len(),
                strictly_increasing(wave@),
                forall|v: usize| wave@.contains(v) <==> (v < g.len() && runnable(g, done0, v as int)),
                done0.len() == n,
                forall|v: int| 0 <= v < n ==> #[trigger] done@[v] == (done0[v] || exists|t: int| 0 <= t < j && wave@[t] == v as usize),
                count_false(done@) + j == count_false(done0),
            decreases wave@.len() - j,
        {
            let v = wave[j];
            assert(wave@.contains(v));
            assert(!done0[v as int]);
            assert(!done@[v as int]) by {
                if exists|t: int| 0 <= t < j && wave@[t] == v {
                    let t = choose|t: int| 0 <= t < j && wave@[t] == v;
                    assert(wave@[t] < wave@[j as int]);
                }
            }
            proof {
                lemma_count_false_set(done@, v as int);
            }
            done.set(v, true);
            j = j + 1;
        }
        let ghost before = waves@;
        waves.push(wave);
        proof {
            let w1 = stage_view(waves@);
            assert(w1 == w0.push(wave@));
            assert(w1.take(w0.len() as int) =~= w0);
            assert forall|k: int| 0 <= k < w0.len() implies w1.take(k) =~= w0.take(k) by {}
            assert forall|v: int| 0 <= v < n implies #[trigger] done@[v] == done_flags(n as nat, w1)[v] by {
                let u = v as usize;
                if done0[v] {
                    let k = choose|k: int| 0 <= k < w0.len() && #[trigger] w0[k].contains(u);
                    assert(w1[k] == w0[k]);
                }
                if exists|t: int| 0 <= t < wave@.len() && wave@[t] == u {
                    let t = choose|t: int| 0 <= t < wave@.len() && wave@[t] == u;
                    assert(w1[w0.len() as int].contains(u));
                }
                if ran_in(w1, u) {
                    let k = choose|k: int| 0 <= k < w1.len() && #[trigger] w1[k].contains(u);
                    if k < w0.len() {
                        assert(w0[k] == w1[k]);
                        assert(ran_in(w0, u));
                    } else {
                        assert(wave@.contains(u));
                        let t = choose|t: int| 0 <= t < wave@.len() && wave@[t] == u;
                    }
                }
            }
            assert(done@ =~= done_flags(n as nat, w1));
            assert(done0 =~= done_flags(n as nat, w1.take(w0.len() as int)));
            assert forall|k: int| 0 <= k < w1.len() implies {
                &&& (#[trigger] w1[k]).len() > 0
                &&& strictly_increasing(w1[k])
                &&& forall|v: usize| w1[k].contains(v) <==> (v < g.len() && runnable(g, done_flags(g.len(), w1.take(k)), v as int))
            } by {
                if k < w0.len() {
                    assert(w1[k] == w0[k]);
                    assert(w1.take(k) =~= w0.take(k));
                }
            }
        }
    }
    let mut all = true;
    let mut v: usize = 0;
    while v < n
        invariant
            n == graph@.len(),
            done@.len() == n,
            done@ == done_flags(n as nat, stage_view(waves@)),
            v <= n,
            all == forall|u: int| 0 <= u < v ==> #[trigger] done@[u],
        decreases n - v,
    {
        if !done[v] {
            all = false;
        }
        v = v + 1;
    }
    proof {
        assert(all == forall|u: usize| u < graph@.len() ==> ran_in(stage_view(waves@), u)) by {
            if all {
                assert forall|u: usize| u < graph@.len() implies ran_in(stage_view(waves@), u) by {
                    assert(done@[u as int]);
                }
            } else {
                let u = choose|u: int| !(0 <= u < n ==> #[trigger] done@[u]);
                assert(!ran_in(stage_view(waves@), u as usize));
            }
        }
    }
    (waves, all)
}

/// Running the graph wave by wave to the end reproduces its stages: when
/// valid stages exist, the waves are exactly those stages.
pub proof fn lemma_waves_are_stages(g: Seq<Seq<usize>>, st: Seq<Seq<usize>>, w: Seq<Seq<usize>>)
    requires
        graph_wf(g),
        valid_stages(g, st),
        wave_run(g, w),
        forall|v: usize| v < g.len() ==> !runnable(g, done_flags(g.len(), w), v as int),
    ensures
        w == st,
{
    let m: int = if w.len() < st.len() { w.len() as int } else { st.len() as int };
    assert forall|k: int| 0 <= k <= m implies #[trigger] w.take(k) == st.take(k) by {
        lemma_waves_prefix(g, st, w, k);
    }
    lemma_stage_flags(g, st, w, m);
    if w.len() < st.len() {
        let k = w.len() as int;
        assert(w.take(k) =~= w);
        lemma_ready_is_next_stage(g, st, done_flags(g.len(), w), k);
        let v = st[k][0];
        assert(st[k].contains(v));
        assert(false);
    } else if w.len() > st.len() {
        let k = st.len() as int;
        let v = w[k][0];
        assert(w[k].contains(v));
        assert(v < g.len());
        assert(in_some_stage(st, v));
        let k2 = choose|k2: int| 0 <= k2 < st.len() && #[trigger] st[k2].contains(v);
        assert(w.take(k)[k2] == st.take(k)[k2]);
        assert(w.take(k)[k2].contains(v));
        assert(ran_in(w.take(k), v));
        assert(done_flags(g.len(), w.take(k))[v as int]);
        assert(false);
    }
    assert(w =~= w.take(m));
    assert(st =~= st.take(m));
}

proof fn lemma_stage_flags(g: Seq<Seq<usize>>, st: Seq<Seq<usize>>, w: Seq<Seq<usize>>, k: int)
    requires
        0 <= k <= w.len(),
        k <= st.len(),
        w.take(k) == st.take(k),
    ensures
        forall|v: usize| #![trigger done_flags(g.len(), w.take(k))[v as int]] v < g.len() ==>
            (done_flags(g.len(), w.take(k))[v as int] <==> exists|k2: int| 0 <= k2 < k && #[trigger] st[k2].contains(v)),
{
    assert forall|v: usize| v < g.len() implies
        (done_flags(g.len(), w.take(k))[v as int] <==> exists|k2: int| 0 <= k2 < k && #[trigger] st[k2].contains(v)) by {
        if ran_in(w.take(k), v) {
            let k2 = choose|k2: int| 0 <= k2 < w.take(k).len() && #[trigger] w.take(k)[k2].contains(v);
            assert(st.take(k)[k2] == st[k2]);
        }
        if exists|k2: int| 0 <= k2 < k && #[trigger] st[k2].contains(v) {
            let k2 = choose|k2: int| 0 <= k2 < k && #[trigger] st[k2].contains(v);
            assert(w.take(k)[k2] == st.take(k)[k2]);
            assert(w.take(k)[k2].contains(v));
        }
    }
}

proof fn lemma_waves_prefix(g: Seq<Seq<usize>>, st: Seq<Seq<usize>>, w: Seq<Seq<usize>>, k: int)
    requires
        graph_wf(g),
        valid_stages(g, st),
        wave_run(g, w),
        0 <= k <= w.len(),
        k <= st.len(),
    ensures
        w.take(k) == st.take(k),
    decreases k,
{
    if k == 0 {
        assert(w.take(0) =~= st.take(0));
    } else {
        let j = k - 1;
        lemma_waves_prefix(g, st, w, j);
        lemma_stage_flags(g, st, w, j);
        lemma_ready_is_next_stage(g, st, done_flags(g.len(), w.take(j)), j);
        assert forall|v: usize| w[j].contains(v) <==> st[j].contains(v) by {
            if st[j].contains(v) {
                assert(v < g.len());
            }
        }
        lemma_increasing_unique(w[j], st[j]);
        assert(w.take(k) =~= w.take(j).push(w[j]));
        assert(st.take(k) =~= st.take(j).push(st[j]));
    }
}

/// Registered systems, each with its declared access, in registration order.
pub struct SystemRegistry<S> {
    runners: Vec<S>,
    access_patterns: Vec<SystemAccess>,
}

impl<S> SystemRegistry<S> {
    /// The registered systems.
    pub closed spec fn spec_runners(&self) -> Seq<S> {
        self.runners@
    }

    /// The declared accesses of the registered systems.
    pub closed spec fn spec_accesses(&self) -> Seq<SystemAccess> {
        self.access_patterns@
    }

    /// One access per system.
    pub open spec fn wf(&self) -> bool {
        self.spec_runners().len() == self.spec_accesses().len()
    }

    /// An empty registry.
    pub fn new() -> (r: Self)
        ensures
            r.wf(),
            r.spec_runners() == Seq::<S>::empty(),
            r.spec_accesses() == Seq::<SystemAccess>::empty(),
    {
        SystemRegistry { runners: Vec::new(), access_patterns: Vec::new() }
    }

    /// Registers `system` with its declared `access`, unless that access
    /// conflicts with the access of a registered system; returns whether it
    /// was registered.
    pub fn add_system(&mut self, system: S, access: SystemAccess) -> (added: bool)
        requires
            old(self).wf(),
        ensures
            final(self).wf(),
            added == forall|i: int| 0 <= i < old(self).spec_accesses().len() ==> !#[trigger] system_conflict(access, old(self).spec_accesses()[i]),
            added ==> final(self).spec_accesses() == old(self).spec_accesses().push(access)
                && final(self).spec_runners() == old(self).spec_runners().push(system),
            !added ==> final(self).spec_accesses() == old(self).spec_accesses()
                && final(self).spec_runners() == old(self).spec_runners(),
            pairwise_conflict_free(old(self).spec_accesses()) ==> pairwise_conflict_free(final(self).spec_accesses()),
    {
        let mut i: usize = 0;
        while i < self.access_patterns.len()
            invariant
                self.wf(),
                i <= self.access_patterns@.len(),
                self.access_patterns@ == old(self).spec_accesses(),
                self.runners@ == old(self).spec_runners(),
                forall|j: int| 0 <= j < i ==> !#[trigger] system_conflict(access, self.access_patterns@[j]),
            decreases self.access_patterns@.len() - i,
        {
            if access.conflicts_with(&self.access_patterns[i]) {
                return false;
            }
            i = i + 1;
        }
        let ghost a0 = self.access_patterns@;
        self.access_patterns.push(access);
        self.runners.push(system);
        proof {
            let a1 = self.access_patterns@;
            if pairwise_conflict_free(a0) {
                assert forall|x: int, y: int| 0 <= x < a1.len() && 0 <= y < a1.len() && x != y implies !#[trigger] system_conflict(a1[x], a1[y]) by {
                    if x == a0.len() {
                        assert(!system_conflict(access, a0[y]));
                    } else if y == a0.len() {
                        assert(!system_conflict(access, a0[x]));
                        crate::access::lemma_system_conflict_symmetric(access, a0[x]);
                    } else {
                        assert(a1[x] == a0[x] && a1[y] == a0[y]);
                    }
                }
            }
        }
        true
    }

    /// Registers `system` with its declared `access` without looking for
    /// conflicts.
    pub fn add_system_unchecked(&mut self, system: S, access: SystemAccess)
        requires
            old(self).wf(),
        ensures
            final(self).wf(),
            final(self).spec_accesses() == old(self).spec_accesses().push(access),
            final(self).spec_runners() == old(self).spec_runners().push(system),
    {
        self.access_patterns.push(access);
        self.runners.push(system);
    }

    /// The number of registered systems.
    pub fn system_count(&self) -> (r: usize)
        requires
            self.wf(),
        ensures
            r == self.spec_runners().len(),
    {
        self.runners.len()
    }

    /// The declared accesses, in registration order.
    pub fn access_patterns(&self) -> (r: &Vec<SystemAccess>)
        ensures
            r@ == self.spec_accesses(),
    {
        &self.access_patterns
    }

    /// Mutable access to the system registered at `index`.
    pub fn runner_mut(&mut self, index: usize) -> (r: &mut S)
        requires
            old(self).wf(),
            index < old(self).spec_runners().len(),
        ensures
            final(self).wf(),
            *r == old(self).spec_runners()[index as int],
            final(self).spec_runners() == old(self).spec_runners().update(index as int, *final(r)),
            final(self).spec_accesses() == old(self).spec_accesses(),
    {
        &mut self.runners[index]
    }
}

/// Runs registered systems stage by stage in the order their accesses demand.
pub struct SystemScheduler<S> {
    registry: SystemRegistry<S>,
}

impl<S> SystemScheduler<S> {
    /// The registry of the scheduler.
    pub closed spec fn spec_registry(&self) -> SystemRegistry<S> {
        self.registry
    }

    /// The scheduler's registry is well formed.
    pub open spec fn wf(&self) -> bool {
        self.spec_registry().wf()
    }

    /// A scheduler without systems.
    pub fn new() -> (r: Self)
        ensures
            r.wf(),
            r.spec_registry().spec_runners() == Seq::<S>::empty(),
            r.spec_registry().spec_accesses() == Seq::<SystemAccess>::empty(),
    {
        SystemScheduler { registry: SystemRegistry::new() }
    }

    /// Registers a system unless its access conflicts with a registered one.
    pub fn add_system(&mut self, system: S, access: SystemAccess) -> (added: bool)
        requires
            old(self).wf(),
        ensures
            final(self).wf(),
            added == forall|i: int| 0 <= i < old(self).spec_registry().spec_accesses().len()
                ==> !#[trigger] system_conflict(access, old(self).spec_registry().spec_accesses()[i]),
            added ==> final(self).spec_registry().spec_accesses() == old(self).spec_registry().spec_accesses().push(access)
                && final(self).spec_registry().spec_runners() == old(self).spec_registry().spec_runners().push(system),
            !added ==> final(self).spec_registry().spec_accesses() == old(self).spec_registry().spec_accesses()
                && final(self).spec_registry().spec_runners() == old(self).spec_registry().spec_runners(),
    {
        self.registry.add_system(system, access)
    }

    /// Registers a system without looking for conflicts.
    pub fn add_system_unchecked(&mut self, system: S, access: SystemAccess)
        requires
            old(self).wf(),
        ensures
            final(self).wf(),
            final(self).spec_registry().spec_accesses() == old(self).spec_registry().spec_accesses().push(access),
            final(self).spec_registry().spec_runners() == old(self).spec_registry().spec_runners().push(system),
    {
        self.registry.add_system_unchecked(system, access)
    }

    /// The number of registered systems.
    pub fn system_count(&self) -> (r: usize)
        requires
            self.wf(),
        ensures
            r == self.spec_registry().spec_runners().len(),
    {
        self.registry.system_count()
    }

    /// Mutable access to the system registered at `index`.
    pub fn runner_mut(&mut self, index: usize) -> (r: &mut S)
        requires
            old(self).wf(),
            index < old(self).spec_registry().spec_runners().len(),
        ensures
            final(self).wf(),
            *r == old(self).spec_registry().spec_runners()[index as int],
            final(self).spec_registry().spec_runners() == old(self).spec_registry().spec_runners().update(index as int, *final(r)),
            final(self).spec_registry().spec_accesses() == old(self).spec_registry().spec_accesses(),
    {
        self.registry.runner_mut(index)
    }

    /// The stages in which the registered systems are to run: the dependency
    /// graph of their accesses, grouped by `calculate_execution_stages`.
    pub fn execution_stages(&self) -> (r: Result<Vec<Vec<usize>>, ScheduleError>)
        requires
            self.wf(),
        ensures
            forall|g: Seq<Seq<usize>>| #[trigger] is_dependency_graph(self.spec_registry().spec_accesses(), g) ==> {
                &&& (r is Ok <==> !has_cycle(g))
                &&& (r matches Ok(st) ==> valid_stages(g, stage_view(st@)))
                &&& (r matches Err(ScheduleError::CycleDetected { processed, total }) ==> total == g.len() && processed < total
                    && processed == total - blocked_nodes(g).len())
            },
    {
        let accs = self.registry.access_patterns.as_slice();
        let graph = build_dependency_graph(accs);
        proof {
            assert(accs@ == self.registry.access_patterns@);
            assert(is_dependency_graph(self.registry.access_patterns@, graph@));
            assert forall|g: Seq<Seq<usize>>| #[trigger] is_dependency_graph(self.spec_registry().spec_accesses(), g) implies g == graph@ by {
                lemma_dependency_graph_unique(self.registry.access_patterns@, g, graph@);
            }
        }
        calculate_execution_stages(&graph)
    }
}

impl<S> SystemScheduler<S> {
    /// The waves in which the systems run: each wave holds the systems whose
    /// dependencies all ran in earlier waves, until no system is left to
    /// run; and whether every system ran.
    pub fn waves(&self) -> (r: (Vec<Vec<usize>>, bool))
        requires
            self.wf(),
        ensures
            forall|g: Seq<Seq<usize>>| #[trigger] is_dependency_graph(self.spec_registry().spec_accesses(), g) ==> {
                &&& wave_run(g, stage_view(r.0@))
                &&& forall|v: usize| v < g.len() ==> !runnable(g, done_flags(g.len(), stage_view(r.0@)), v as int)
                &&& r.1 == forall|v: usize| v < g.len() ==> ran_in(stage_view(r.0@), v)
            },
    {
        let accs = self.registry.access_patterns.as_slice();
        let graph = build_dependency_graph(accs);
        proof {
            assert(accs@ == self.registry.access_patterns@);
            assert forall|g: Seq<Seq<usize>>| #[trigger] is_dependency_graph(self.spec_registry().spec_accesses(), g) implies g == graph@ by {
                lemma_dependency_graph_unique(self.registry.access_patterns@, g, graph@);
            }
        }
        run_waves(&graph)
    }
}

/// `g` is the dependency graph of the systems with accesses `accs`: a well
/// formed graph over them whose lists hold exactly the dependencies that
/// `depends_on` gives.
pub open spec fn is_dependency_graph(accs: Seq<SystemAccess>, g: Seq<Seq<usize>>) -> bool {
    &&& graph_wf(g)
    &&& g.len() == accs.len()
    &&& forall|u: int, v: usize| 0 <= u < g.len() ==> (#[trigger] g[u].contains(v) <==> (v < g.len() && depends_on(accs, u, v as int)))
}

/// The ordering of two systems registered as `i < j`: when `i` writes a
/// component or resource that `j` reads or writes, `j` depends on `i` and `i`
/// does not depend on `j`, whatever `i` reads of what `j` writes (on mutual
/// dependence the order of registration wins).
pub proof fn lemma_earlier_writer_runs_first(accs: Seq<SystemAccess>, g: Seq<Seq<usize>>, i: usize, j: usize)
    requires
        is_dependency_graph(accs, g),
        i < j,
        j < accs.len(),
        (exists|a: int, b: int|
            0 <= a < accs[i as int].component_access@.len() && 0 <= b < accs[j as int].component_access@.len()
            && accs[i as int].component_access@[a].type_id == accs[j as int].component_access@[b].type_id
            && accs[i as int].component_access@[a].access_type == AccessType::Write)
        || (exists|a: int, b: int|
            0 <= a < accs[i as int].resource_access@.len() && 0 <= b < accs[j as int].resource_access@.len()
            && accs[i as int].resource_access@[a].type_id == accs[j as int].resource_access@[b].type_id
            && accs[i as int].resource_access@[a].access_type == AccessType::Write),
    ensures
        g[j as int].contains(i),
        !g[i as int].contains(j),
{
    let x = accs[i as int];
    let y = accs[j as int];
    if exists|a: int, b: int|
        0 <= a < x.component_access@.len() && 0 <= b < y.component_access@.len()
        && x.component_access@[a].type_id == y.component_access@[b].type_id
        && x.component_access@[a].access_type == AccessType::Write {
        let (a, b) = choose|a: int, b: int|
            0 <= a < x.component_access@.len() && 0 <= b < y.component_access@.len()
            && x.component_access@[a].type_id == y.component_access@[b].type_id
            && x.component_access@[a].access_type == AccessType::Write;
        assert(writes_before(x.component_access@[a], y.component_access@[b]));
    } else {
        let (a, b) = choose|a: int, b: int|
            0 <= a < x.resource_access@.len() && 0 <= b < y.resource_access@.len()
            && x.resource_access@[a].type_id == y.resource_access@[b].type_id
            && x.resource_access@[a].access_type == AccessType::Write;
        assert(writes_before(x.resource_access@[a], y.resource_access@[b]));
    }
    assert(must_run_before(x, y));
    assert(depends_on(accs, j as int, i as int));
    assert(!depends_on(accs, i as int, j as int));
}

/// The ordering of two systems registered as `i < j` when `i` writes
/// nothing that `j` uses but reads a component or resource that `j` writes:
/// `i` depends on `j` (the writer runs first) and `j` does not depend on `i`.
pub proof fn lemma_later_writer_runs_before_earlier_reader(accs: Seq<SystemAccess>, g: Seq<Seq<usize>>, i: usize, j: usize)
    requires
        is_dependency_graph(accs, g),
        i < j,
        j < accs.len(),
        forall|a: int, b: int|
            0 <= a < accs[i as int].component_access@.len() && 0 <= b < accs[j as int].component_access@.len()
            && accs[i as int].component_access@[a].type_id == accs[j as int].component_access@[b].type_id
            ==> accs[i as int].component_access@[a].access_type == AccessType::Read,
        forall|a: int, b: int|
            0 <= a < accs[i as int].resource_access@.len() && 0 <= b < accs[j as int].resource_access@.len()
            && accs[i as int].resource_access@[a].type_id == accs[j as int].resource_access@[b].type_id
            ==> accs[i as int].resource_access@[a].access_type == AccessType::Read,
        (exists|a: int, b: int|
            0 <= a < accs[i as int].component_access@.len() && 0 <= b < accs[j as int].component_access@.len()
            && accs[i as int].component_access@[a].type_id == accs[j as int].component_access@[b].type_id
            && accs[j as int].component_access@[b].access_type == AccessType::Write)
        || (exists|a: int, b: int|
            0 <= a < accs[i as int].resource_access@.len() && 0 <= b < accs[j as int].resource_access@.len()
            && accs[i as int].resource_access@[a].type_id == accs[j as int].resource_access@[b].type_id
            && accs[j as int].resource_access@[b].access_type == AccessType::Write),
    ensures
        g[i as int].contains(j),
        !g[j as int].contains(i),
{
    let x = accs[i as int];
    let y = accs[j as int];
    assert(!must_run_before(x, y)) by {
        if some_write_before(x.component_access@, y.component_access@) {
            let (a, b) = choose|a: int, b: int| 0 <= a < x.component_access@.len() && 0 <= b < y.component_access@.len()
                && #[trigger] writes_before(x.component_access@[a], y.component_access@[b]);
            assert(x.component_access@[a].access_type == AccessType::Read);
        }
        if some_write_before(x.resource_access@, y.resource_access@) {
            let (a, b) = choose|a: int, b: int| 0 <= a < x.resource_access@.len() && 0 <= b < y.resource_access@.len()
                && #[trigger] writes_before(x.resource_access@[a], y.resource_access@[b]);
            assert(x.resource_access@[a].access_type == AccessType::Read);
        }
    }
    if exists|a: int, b: int|
        0 <= a < x.component_access@.len() && 0 <= b < y.component_access@.len()
        && x.component_access@[a].type_id == y.component_access@[b].type_id
        && y.component_access@[b].access_type == AccessType::Write {
        let (a, b) = choose|a: int, b: int|
            0 <= a < x.component_access@.len() && 0 <= b < y.component_access@.len()
            && x.component_access@[a].type_id == y.component_access@[b].type_id
            && y.component_access@[b].access_type == AccessType::Write;
        assert(x.component_access@[a].access_type == AccessType::Read);
        assert(reads_before_write(x.component_access@[a], y.component_access@[b]));
    } else {
        let (a, b) = choose|a: int, b: int|
            0 <= a < x.resource_access@.len() && 0 <= b < y.resource_access@.len()
            && x.resource_access@[a].type_id == y.resource_access@[b].type_id
            && y.resource_access@[b].access_type == AccessType::Write;
        assert(x.resource_access@[a].access_type == AccessType::Read);
        assert(reads_before_write(x.resource_access@[a], y.resource_access@[b]));
    }
    assert(depends_on(accs, i as int, j as int));
    assert(!depends_on(accs, j as int, i as int));
}

/// Two strictly increasing sequences with the same elements are equal.
pub proof fn lemma_increasing_unique(s: Seq<usize>, t: Seq<usize>)
    requires
        strictly_increasing(s),
        strictly_increasing(t),
        forall|x: usize| s.contains(x) <==> t.contains(x),
    ensures
        s == t,
    decreases s.len(),
{
    if s.len() == 0 {
        if t.len() > 0 {
            assert(t.contains(t[0]));
        }
        assert(s =~= t);
    } else {
        assert(s.contains(s[0]));
        assert(t.len() > 0);
        assert(t.contains(t[0]));
        let a = choose|k: int| 0 <= k < t.len() && t[k] == s[0];
        let b = choose|k: int| 0 <= k < s.len() && s[k] == t[0];
        if a > 0 {
            assert(t[0] < t[a]);
        }
        if b > 0 {
            assert(s[0] < s[b]);
        }
        assert(s[0] == t[0]);
        let s1 = s.drop_first();
        let t1 = t.drop_first();
        assert forall|x: usize| s1.contains(x) <==> t1.contains(x) by {
            if s1.contains(x) {
                let k = choose|k: int| 0 <= k < s1.len() && s1[k] == x;
                assert(s[k + 1] == x);
                assert(s[0] < s[k + 1]);
                assert(t.contains(x));
                let k2 = choose|k2: int| 0 <= k2 < t.len() && t[k2] == x;
                assert(k2 != 0);
                assert(t1[k2 - 1] == x);
            }
            if t1.contains(x) {
                let k = choose|k: int| 0 <= k < t1.len() && t1[k] == x;
                assert(t[k + 1] == x);
                assert(t[0] < t[k + 1]);
                assert(s.contains(x));
                let k2 = choose|k2: int| 0 <= k2 < s.len() && s[k2] == x;
                assert(k2 != 0);
                assert(s1[k2 - 1] == x);
            }
        }
        lemma_increasing_unique(s1, t1);
        assert(s =~= t) by {
            assert forall|k: int| 0 <= k < s.len() implies s[k] == t[k] by {
                if k > 0 {
                    assert(s[k] == s1[k - 1]);
                    assert(t[k] == t1[k - 1]);
                }
            }
        }
    }
}

/// The dependency graph of a list of accesses is unique.
pub proof fn lemma_dependency_graph_unique(accs: Seq<SystemAccess>, g1: Seq<Seq<usize>>, g2: Seq<Seq<usize>>)
    requires
        is_dependency_graph(accs, g1),
        is_dependency_graph(accs, g2),
    ensures
        g1 == g2,
{
    assert forall|u: int| 0 <= u < g1.len() implies g1[u] == g2[u] by {
        assert forall|x: usize| g1[u].contains(x) <==> g2[u].contains(x) by {}
        lemma_increasing_unique(g1[u], g2[u]);
    }
    assert(g1 =~= g2);
}


// ---------------------------------------------------------------------------
// Laws of the ordering
// ---------------------------------------------------------------------------

/// Two access lists conflict exactly when one writes what the other uses or
/// reads what the other writes.
proof fn lemma_lists_conflict_split(xs: Seq<DataAccess>, ys: Seq<DataAccess>)
    ensures
        lists_conflict(xs, ys) <==> (some_write_before(xs, ys) || some_read_before_write(xs, ys)),
{
    if lists_conflict(xs, ys) {
        let (a, b) = choose|a: int, b: int| 0 <= a < xs.len() && 0 <= b < ys.len() && #[trigger] data_conflict(xs[a], ys[b]);
        if xs[a].access_type == AccessType::Write {
            assert(writes_before(xs[a], ys[b]));
        } else {
            assert(reads_before_write(xs[a], ys[b]));
        }
    }
    if some_write_before(xs, ys) {
        let (a, b) = choose|a: int, b: int| 0 <= a < xs.len() && 0 <= b < ys.len() && #[trigger] writes_before(xs[a], ys[b]);
        assert(data_conflict(xs[a], ys[b]));
    }
    if some_read_before_write(xs, ys) {
        let (a, b) = choose|a: int, b: int| 0 <= a < xs.len() && 0 <= b < ys.len() && #[trigger] reads_before_write(xs[a], ys[b]);
        assert(data_conflict(xs[a], ys[b]));
    }
}

/// The dependency graph orders exactly the conflicting pairs: two distinct
/// systems conflict if and only if one of them depends on the other, and never
/// does each depend on the other.
pub proof fn lemma_edges_are_conflicts(accs: Seq<SystemAccess>, i: int, j: int)
    requires
        0 <= i < accs.len(),
        0 <= j < accs.len(),
        i != j,
    ensures
        system_conflict(accs[i], accs[j]) <==> (depends_on(accs, i, j) || depends_on(accs, j, i)),
        !(depends_on(accs, i, j) && depends_on(accs, j, i)),
{
    let (lo, hi) = if i < j { (i, j) } else { (j, i) };
    lemma_lists_conflict_split(accs[lo].component_access@, accs[hi].component_access@);
    lemma_lists_conflict_split(accs[lo].resource_access@, accs[hi].resource_access@);
    crate::access::lemma_system_conflict_symmetric(accs[i], accs[j]);
}

/// Systems placed in the same stage never conflict, so a stage may run all at
/// once.
pub proof fn lemma_stage_members_conflict_free(accs: Seq<SystemAccess>, g: Seq<Seq<usize>>, st: Seq<Seq<usize>>, k: int, a: usize, b: usize)
    requires
        is_dependency_graph(accs, g),
        valid_stages(g, st),
        0 <= k < st.len(),
        st[k].contains(a),
        st[k].contains(b),
        a != b,
    ensures
        !system_conflict(accs[a as int], accs[b as int]),
{
    assert(a < g.len() && b < g.len());
    lemma_edges_are_conflicts(accs, a as int, b as int);
    if depends_on(accs, a as int, b as int) {
        assert(g[a as int].contains(b));
        let k2 = choose|k2: int| 0 <= k2 < k && #[trigger] st[k2].contains(b);
        assert(false);
    }
    if depends_on(accs, b as int, a as int) {
        assert(g[b as int].contains(a));
        let k2 = choose|k2: int| 0 <= k2 < k && #[trigger] st[k2].contains(a);
        assert(false);
    }
}

/// The stage of a node is determined by the graph: in any two valid stagings
/// of the same graph every node lies in the stage of the same index.
proof fn lemma_stage_index_unique(g: Seq<Seq<usize>>, a: Seq<Seq<usize>>, b: Seq<Seq<usize>>, k: int)
    requires
        valid_stages(g, a),
        valid_stages(g, b),
        k >= 0,
    ensures
        forall|v: usize, ka: int, kb: int| 0 <= ka < a.len() && 0 <= kb < b.len() && (ka <= k || kb <= k)
            && #[trigger] a[ka].contains(v) && #[trigger] b[kb].contains(v) ==> ka == kb,
    decreases k,
{
    if k > 0 {
        lemma_stage_index_unique(g, a, b, k - 1);
    }
    assert forall|v: usize, ka: int, kb: int| 0 <= ka < a.len() && 0 <= kb < b.len() && (ka <= k || kb <= k)
        && #[trigger] a[ka].contains(v) && #[trigger] b[kb].contains(v) implies ka == kb by {
        if ka < kb {
            // v lies in b[kb] with kb >= 1, so it has a dependency d in b[kb - 1];
            // in a, d lies before ka.
            let d = choose|d: usize| #[trigger] g[v as int].contains(d) && b[kb - 1].contains(d);
            let kd = choose|k2: int| 0 <= k2 < ka && #[trigger] a[k2].contains(d);
            assert(kd <= k - 1);
            assert(kd == kb - 1);
        } else if kb < ka {
            let d = choose|d: usize| #[trigger] g[v as int].contains(d) && a[ka - 1].contains(d);
            let kd = choose|k2: int| 0 <= k2 < kb && #[trigger] b[k2].contains(d);
            assert(kd <= k - 1);
            assert(kd == ka - 1);
        }
    }
}

/// The stages are determined by the graph: two valid stagings of one graph
/// are equal.
pub proof fn lemma_valid_stages_unique(g: Seq<Seq<usize>>, a: Seq<Seq<usize>>, b: Seq<Seq<usize>>)
    requires
        valid_stages(g, a),
        valid_stages(g, b),
    ensures
        a == b,
{
    let m = if a.len() > b.len() { a.len() as int } else { b.len() as int };
    lemma_stage_index_unique(g, a, b, m);
    if a.len() > b.len() {
        let v = a[b.len() as int][0];
        assert(a[b.len() as int].contains(v));
        assert(v < g.len());
        assert(in_some_stage(b, v));
        let kb = choose|kb: int| 0 <= kb < b.len() && #[trigger] b[kb].contains(v);
        assert(false);
    }
    if b.len() > a.len() {
        let v = b[a.len() as int][0];
        assert(b[a.len() as int].contains(v));
        assert(v < g.len());
        assert(in_some_stage(a, v));
        let ka = choose|ka: int| 0 <= ka < a.len() && #[trigger] a[ka].contains(v);
        assert(false);
    }
    assert forall|k: int| 0 <= k < a.len() implies a[k] == b[k] by {
        assert forall|x: usize| a[k].contains(x) <==> b[k].contains(x) by {
            if a[k].contains(x) {
                assert(x < g.len());
                assert(in_some_stage(b, x));
                let kb = choose|kb: int| 0 <= kb < b.len() && #[trigger] b[kb].contains(x);
            }
            if b[k].contains(x) {
                assert(x < g.len());
                assert(in_some_stage(a, x));
                let ka = choose|ka: int| 0 <= ka < a.len() && #[trigger] a[ka].contains(x);
            }
        }
        lemma_increasing_unique(a[k], b[k]);
    }
    assert(a =~= b);
}

} // verus!
