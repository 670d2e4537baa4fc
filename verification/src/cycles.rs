//! Detection of dependency cycles among formulas by depth-first search.
//!
//! Formula `i` depends on formula `j` when one of the dependency IDs of `i` is the target
//! of `j`, `j` being the last formula with that target. A cycle is a walk of such steps
//! that returns to where it started.

use vstd::prelude::*;
use crate::config::{config_views, ConfigView, FormulaConfig};
use crate::text::same_text;

verus! {

/// Index of the last formula whose target is `target`.
pub open spec fn last_with_target(formulas: Seq<ConfigView>, target: Seq<char>) -> Option<int>
    decreases formulas.len(),
{
    if formulas.len() == 0 {
        None
    } else if formulas.last().target == target {
        Some(formulas.len() - 1)
    } else {
        last_with_target(formulas.drop_last(), target)
    }
}

/// One of the first `count` dependency IDs of formula `i` is the target of formula `j`.
pub open spec fn reads_target(formulas: Seq<ConfigView>, i: int, count: int, j: int) -> bool {
    exists|d: int|
        0 <= d < count && #[trigger] last_with_target(formulas, formulas[i].dependencies[d])
            == Some(j)
}

/// Formula `i` reads the target of formula `j`.
pub open spec fn depends_on(formulas: Seq<ConfigView>, i: int, j: int) -> bool {
    &&& 0 <= i < formulas.len()
    &&& reads_target(formulas, i, formulas[i].dependencies.len() as int, j)
}

pub open spec fn dependency_step(formulas: Seq<ConfigView>, p: Seq<int>, k: int) -> bool {
    depends_on(formulas, p[k], p[k + 1])
}

pub open spec fn dependency_walk(formulas: Seq<ConfigView>, p: Seq<int>) -> bool {
    forall|k: int| 0 <= k < p.len() - 1 ==> #[trigger] dependency_step(formulas, p, k)
}

/// Some formula depends, directly or through others, on itself.
pub open spec fn has_dependency_cycle(formulas: Seq<ConfigView>) -> bool {
    exists|p: Seq<int>|
        p.len() >= 2 && p[0] == p[p.len() - 1] && #[trigger] dependency_walk(formulas, p)
}

/// `v` occurs in the list `s`.
pub open spec fn lists(s: Seq<usize>, v: int) -> bool {
    exists|k: int| 0 <= k < s.len() && #[trigger] s[k] == v
}

/// `v` is among the successors of `u` in an adjacency list.
pub open spec fn edge(graph: Seq<Vec<usize>>, u: int, v: int) -> bool {
    &&& 0 <= u < graph.len()
    &&& lists(graph[u]@, v)
}

pub open spec fn step(graph: Seq<Vec<usize>>, p: Seq<int>, k: int) -> bool {
    edge(graph, p[k], p[k + 1])
}

pub open spec fn is_walk(graph: Seq<Vec<usize>>, p: Seq<int>) -> bool {
    forall|k: int| 0 <= k < p.len() - 1 ==> #[trigger] step(graph, p, k)
}

/// There is a walk of at least one edge from `a` to `b`.
pub open spec fn reaches(graph: Seq<Vec<usize>>, a: int, b: int) -> bool {
    exists|p: Seq<int>|
        p.len() >= 2 && p[0] == a && p[p.len() - 1] == b && #[trigger] is_walk(graph, p)
}

/// Every successor names a node of the graph.
pub open spec fn graph_wf(graph: Seq<Vec<usize>>) -> bool {
    forall|u: int, k: int|
        0 <= u < graph.len() && 0 <= k < graph[u]@.len() ==> #[trigger] graph[u]@[k] < graph.len()
}

/// The colouring of a depth-first search that has found no cycle: nodes being explored
/// (`visiting`) are not finished (`visited`), finished nodes lead only to finished nodes,
/// and no finished node lies on a cycle.
pub open spec fn colours_ok(graph: Seq<Vec<usize>>, visiting: Seq<bool>, visited: Seq<bool>) -> bool {
    &&& visiting.len() == graph.len()
    &&& visited.len() == graph.len()
    &&& forall|v: int| 0 <= v < graph.len() ==> !(#[trigger] visiting[v] && visited[v])
    &&& forall|u: int, v: int|
        0 <= u < graph.len() && visited[u] && #[trigger] edge(graph, u, v) ==> visited[v]
    &&& forall|v: int| 0 <= v < graph.len() && #[trigger] visited[v] ==> !reaches(graph, v, v)
}

/// Number of `true` entries.
pub open spec fn marked(s: Seq<bool>) -> nat
    decreases s.len(),
{
    if s.len() == 0 {
        0
    } else {
        marked(s.drop_last()) + if s.last() {
            1nat
        } else {
            0nat
        }
    }
}

pub proof fn lemma_marked_bound(s: Seq<bool>)
    ensures
        marked(s) <= s.len(),
    decreases s.len(),
{
    if s.len() > 0 {
        lemma_marked_bound(s.drop_last());
    }
}

pub proof fn lemma_marked_set(s: Seq<bool>, i: int)
    requires
        0 <= i < s.len(),
        !s[i],
    ensures
        marked(s.update(i, true)) == marked(s) + 1,
    decreases s.len(),
{
    let t = s.update(i, true);
    if i == s.len() - 1 {
        assert(t.drop_last() =~= s.drop_last());
    } else {
        assert(t.drop_last() =~= s.drop_last().update(i, true));
        lemma_marked_set(s.drop_last(), i);
    }
}

pub proof fn lemma_edge_reaches(graph: Seq<Vec<usize>>, a: int, b: int)
    requires
        edge(graph, a, b),
    ensures
        reaches(graph, a, b),
{
    let p = seq![a, b];
    assert(step(graph, p, 0));
    assert(is_walk(graph, p));
}

pub proof fn lemma_reaches_extend(graph: Seq<Vec<usize>>, a: int, b: int, c: int)
    requires
        reaches(graph, a, b),
        edge(graph, b, c),
    ensures
        reaches(graph, a, c),
{
    let p = choose|p: Seq<int>|
        p.len() >= 2 && p[0] == a && p[p.len() - 1] == b && #[trigger] is_walk(graph, p);
    let q = p.push(c);
    assert forall|k: int| 0 <= k < q.len() - 1 implies #[trigger] step(graph, q, k) by {
        if k < p.len() - 1 {
            assert(step(graph, p, k));
        }
    }
    assert(is_walk(graph, q));
}

/// A walk that starts at a finished node stays among finished nodes.
pub proof fn lemma_closed_walk(graph: Seq<Vec<usize>>, visited: Seq<bool>, p: Seq<int>, k: int)
    requires
        visited.len() == graph.len(),
        graph_wf(graph),
        forall|u: int, v: int|
            0 <= u < graph.len() && visited[u] && #[trigger] edge(graph, u, v) ==> visited[v],
        is_walk(graph, p),
        p.len() >= 1,
        0 <= p[0] < graph.len(),
        visited[p[0]],
        0 <= k < p.len(),
    ensures
        0 <= p[k] < graph.len(),
        visited[p[k]],
    decreases k,
{
    if k > 0 {
        lemma_closed_walk(graph, visited, p, k - 1);
        assert(step(graph, p, k - 1));
        let j = choose|j: int| 0 <= j < graph[p[k - 1]]@.len() && #[trigger] graph[p[k - 1]]@[j] == p[k];
        assert(graph[p[k - 1]]@[j] < graph.len());
    }
}

pub proof fn lemma_reaches_prepend(graph: Seq<Vec<usize>>, a: int, b: int, c: int)
    requires
        edge(graph, a, b),
        reaches(graph, b, c),
    ensures
        reaches(graph, a, c),
{
    let p = choose|p: Seq<int>|
        p.len() >= 2 && p[0] == b && p[p.len() - 1] == c && #[trigger] is_walk(graph, p);
    let q = seq![a] + p;
    assert forall|k: int| 0 <= k < q.len() - 1 implies #[trigger] step(graph, q, k) by {
        if k > 0 {
            assert(step(graph, p, k - 1));
            assert(q[k] == p[k - 1] && q[k + 1] == p[k]);
        }
    }
    assert(is_walk(graph, q));
}

/// A node on a cycle can be reached from `target` (`target` itself included).
pub open spec fn cycle_reachable(graph: Seq<Vec<usize>>, target: int) -> bool {
    exists|v: int| #[trigger] reaches(graph, target, v) && reaches(graph, v, v)
}

/// Every node on the search path leads to `target`.
pub open spec fn path_leads_to(graph: Seq<Vec<usize>>, visiting: Seq<bool>, target: int) -> bool {
    forall|g: int| 0 <= g < graph.len() && #[trigger] visiting[g] ==> reaches(graph, g, target)
}

/// Under a consistent colouring, no cycle is reachable from a finished node.
pub proof fn lemma_finished_has_no_cycle(
    graph: Seq<Vec<usize>>,
    visiting: Seq<bool>,
    visited: Seq<bool>,
    t: int,
)
    requires
        graph_wf(graph),
        colours_ok(graph, visiting, visited),
        0 <= t < graph.len(),
        visited[t],
    ensures
        !cycle_reachable(graph, t),
{
    if cycle_reachable(graph, t) {
        let v = choose|v: int| #[trigger] reaches(graph, t, v) && reaches(graph, v, v);
        let p = choose|p: Seq<int>|
            p.len() >= 2 && p[0] == t && p[p.len() - 1] == v && #[trigger] is_walk(graph, p);
        lemma_closed_walk(graph, visited, p, p.len() - 1);
        assert(visited[v]);
    }
}

/// Depth-first search from `target`: whether a cycle is reachable from it. Nodes on the
/// current search path are marked in `visiting`; nodes fully explored are marked in
/// `visited`. The search leaves `visiting` as it found it and keeps every mark of `visited`.
/// Started from a consistent state (as from an empty one), it answers exactly whether a
/// cycle is reachable from `target`, and when it answers no, the state stays consistent.
pub fn has_cycle(target: usize, graph: &Vec<Vec<usize>>, visiting: &mut Vec<bool>, visited: &mut Vec<bool>) -> (r: bool)
    requires
        graph_wf(graph@),
        target < graph@.len(),
        old(visiting)@.len() == graph@.len(),
        old(visited)@.len() == graph@.len(),
    ensures
        final(visiting)@ == old(visiting)@,
        final(visited)@.len() == graph@.len(),
        forall|v: int| 0 <= v < graph@.len() && #[trigger] old(visited)@[v] ==> final(visited)@[v],
        old(visited)@[target as int] ==> !r && final(visited)@ == old(visited)@,
        !old(visited)@[target as int] && old(visiting)@[target as int]
            ==> r && final(visited)@ == old(visited)@,
        !old(visited)@[target as int] && !old(visiting)@[target as int]
            ==> final(visited)@[target as int],
        colours_ok(graph@, old(visiting)@, old(visited)@) && path_leads_to(
            graph@,
            old(visiting)@,
            target as int,
        ) ==> {
            &&& r <==> cycle_reachable(graph@, target as int)
            &&& !r ==> colours_ok(graph@, final(visiting)@, final(visited)@)
        },
    decreases graph@.len() - marked(old(visiting)@),
{
    let ghost consistent = colours_ok(graph@, visiting@, visited@) && path_leads_to(
        graph@,
        visiting@,
        target as int,
    );
    if visited[target] {
        proof {
            if consistent {
                lemma_finished_has_no_cycle(graph@, visiting@, visited@, target as int);
            }
        }
        return false;
    }
    if visiting[target] {
        proof {
            if consistent {
                assert(reaches(graph@, target as int, target as int));
            }
        }
        return true;
    }
    let ghost entry_visiting = visiting@;
    let ghost entry_visited = visited@;
    proof {
        lemma_marked_set(visiting@, target as int);
        lemma_marked_bound(visiting@.update(target as int, true));
    }
    visiting.set(target, true);
    let successors = &graph[target];
    let mut k: usize = 0;
    while k < successors.len()
        invariant
            successors == graph@[target as int],
            target < graph@.len(),
            graph_wf(graph@),
            k <= successors.len(),
            !entry_visiting[target as int],
            entry_visiting.len() == graph@.len(),
            entry_visiting == old(visiting)@,
            entry_visited == old(visited)@,
            !entry_visited[target as int],
            visiting@ == entry_visiting.update(target as int, true),
            visited@.len() == graph@.len(),
            marked(visiting@) == marked(entry_visiting) + 1,
            marked(visiting@) <= graph@.len(),
            consistent == (colours_ok(graph@, entry_visiting, entry_visited) && path_leads_to(
                graph@,
                entry_visiting,
                target as int,
            )),
            consistent ==> colours_ok(graph@, visiting@, visited@),
            forall|v: int| 0 <= v < graph@.len() && #[trigger] entry_visited[v] ==> visited@[v],
            forall|m: int| 0 <= m < k ==> #[trigger] visited@[successors@[m] as int],
        decreases successors.len() - k,
    {
        let next = successors[k];
        proof {
            assert(graph@[target as int]@[k as int] == next);
            assert(edge(graph@, target as int, next as int));
            if consistent {
                assert forall|g: int| 0 <= g < graph@.len() && #[trigger] visiting@[g] implies reaches(
                    graph@,
                    g,
                    next as int,
                ) by {
                    if g == target {
                        lemma_edge_reaches(graph@, g, next as int);
                    } else {
                        assert(entry_visiting.update(target as int, true)[g] == entry_visiting[g]);
                        assert(entry_visiting[g]);
                        lemma_reaches_extend(graph@, g, target as int, next as int);
                    }
                }
            }
        }
        assert(graph@.len() - marked(visiting@) < graph@.len() - marked(entry_visiting));
        assert(graph@.len() - marked(visiting@) >= 0);
        let ghost before = visited@;
        let ghost before_visiting = visiting@;
        if has_cycle(next, graph, visiting, visited) {
            proof {
                if consistent {
                    assert(colours_ok(graph@, before_visiting, before));
                    assert(path_leads_to(graph@, before_visiting, next as int));
                    let v = choose|v: int| #[trigger] reaches(graph@, next as int, v) && reaches(graph@, v, v);
                    lemma_reaches_prepend(graph@, target as int, next as int, v);
                }
            }
            visiting.set(target, false);
            visited.set(target, true);
            proof {
                assert(visiting@ =~= entry_visiting);
            }
            return true;
        }
        proof {
            if before[next as int] {
            } else if before_visiting[next as int] {
            } else {
                assert(visited@[next as int]);
            }
            assert forall|m: int| 0 <= m < k + 1 implies #[trigger] visited@[successors@[m] as int] by {
                if m < k {
                    assert(before[successors@[m] as int]);
                    assert(successors@[m] < graph@.len());
                }
            }
        }
        k = k + 1;
    }
    let ghost explored = visited@;
    visiting.set(target, false);
    visited.set(target, true);
    proof {
        assert(visiting@ =~= entry_visiting);
        if consistent {
            assert forall|u: int, v: int|
                0 <= u < graph@.len() && visited@[u] && #[trigger] edge(graph@, u, v) implies visited@[v] by {
                if u == target {
                    let j = choose|j: int| 0 <= j < graph@[u]@.len() && #[trigger] graph@[u]@[j] == v;
                    assert(visited@[successors@[j] as int]);
                } else {
                    assert(explored[u]);
                }
            }
            assert forall|v: int| 0 <= v < graph@.len() && #[trigger] visited@[v] implies !reaches(
                graph@,
                v,
                v,
            ) by {
                if v == target {
                    if reaches(graph@, v, v) {
                        let p = choose|p: Seq<int>|
                            p.len() >= 2 && p[0] == v && p[p.len() - 1] == v && #[trigger] is_walk(
                                graph@,
                                p,
                            );
                        assert(step(graph@, p, 0));
                        let j = choose|j: int| 0 <= j < graph@[v]@.len() && #[trigger] graph@[v]@[j] == p[1];
                        assert(explored[successors@[j] as int]);
                        let q = p.skip(1);
                        assert forall|m: int| 0 <= m < q.len() - 1 implies #[trigger] step(graph@, q, m) by {
                            assert(step(graph@, p, m + 1));
                        }
                        assert(graph@[v]@[j] < graph@.len());
                        lemma_closed_walk(graph@, explored, q, q.len() - 1);
                        assert(explored[v]);
                    }
                } else {
                    assert(explored[v]);
                }
            }
            assert(colours_ok(graph@, visiting@, visited@));
            lemma_finished_has_no_cycle(graph@, visiting@, visited@, target as int);
        }
    }
    false
}


pub proof fn lemma_last_with_target_bounds(formulas: Seq<ConfigView>, target: Seq<char>)
    ensures
        last_with_target(formulas, target) matches Some(i) ==> 0 <= i < formulas.len()
            && formulas[i].target == target,
    decreases formulas.len(),
{
    if formulas.len() > 0 {
        lemma_last_with_target_bounds(formulas.drop_last(), target);
    }
}

/// Index of the last formula whose target is `target`.
pub fn find_target(formulas: &[FormulaConfig], target: &str) -> (r: Option<usize>)
    ensures
        r == (match last_with_target(config_views(formulas@), target@) {
            Some(i) => Some(i as usize),
            None => None::<usize>,
        }),
        r matches Some(i) ==> i < formulas@.len(),
{
    let ghost all = config_views(formulas@);
    let mut found: Option<usize> = None;
    let mut k: usize = 0;
    while k < formulas.len()
        invariant
            all == config_views(formulas@),
            k <= formulas@.len(),
            found == (match last_with_target(all.take(k as int), target@) {
                Some(i) => Some(i as usize),
                None => None::<usize>,
            }),
        decreases formulas@.len() - k,
    {
        proof {
            assert(all.take(k + 1).drop_last() =~= all.take(k as int));
        }
        if same_text(formulas[k].target_attribute_id.as_str(), target) {
            found = Some(k);
        }
        k = k + 1;
    }
    proof {
        assert(all.take(k as int) =~= all);
        lemma_last_with_target_bounds(all, target@);
    }
    found
}

/// Adjacency lists of the dependency relation: the successors of formula `i` are the
/// formulas for its dependency IDs, in the order of those IDs.
pub fn dependency_graph(formulas: &[FormulaConfig]) -> (graph: Vec<Vec<usize>>)
    ensures
        graph@.len() == formulas@.len(),
        graph_wf(graph@),
        forall|i: int, j: int| #[trigger] edge(graph@, i, j) == depends_on(config_views(formulas@), i, j),
{
    let ghost all = config_views(formulas@);
    let n = formulas.len();
    let mut graph: Vec<Vec<usize>> = Vec::new();
    let mut i: usize = 0;
    while i < n
        invariant
            n == formulas@.len(),
            all == config_views(formulas@),
            i <= n,
            graph@.len() == i,
            forall|u: int, k: int|
                0 <= u < i && 0 <= k < graph@[u]@.len() ==> #[trigger] graph@[u]@[k] < n,
            forall|u: int, v: int|
                #![trigger lists(graph@[u]@, v)]
                #![trigger reads_target(all, u, all[u].dependencies.len() as int, v)]
                0 <= u < i ==> lists(graph@[u]@, v) == reads_target(
                    all,
                    u,
                    all[u].dependencies.len() as int,
                    v,
                ),
        decreases n - i,
    {
        let dependencies = &formulas[i].dependencies;
        let mut successors: Vec<usize> = Vec::new();
        let mut d: usize = 0;
        while d < dependencies.len()
            invariant
                n == formulas@.len(),
                all == config_views(formulas@),
                i < n,
                dependencies@ == formulas@[i as int].dependencies@,
                d <= dependencies.len(),
                forall|k: int| 0 <= k < successors@.len() ==> #[trigger] successors@[k] < n,
                forall|v: int|
                    #![trigger lists(successors@, v)]
                    #![trigger reads_target(all, i as int, d as int, v)]
                    lists(successors@, v) == reads_target(all, i as int, d as int, v),
            decreases dependencies.len() - d,
        {
            let found = find_target(formulas, dependencies[d].as_str());
            let ghost before = successors@;
            proof {
                assert(all[i as int].dependencies[d as int] == dependencies@[d as int]@);
            }
            match found {
                Some(j) => {
                    successors.push(j);
                },
                None => {},
            }
            proof {
                lemma_last_with_target_bounds(all, all[i as int].dependencies[d as int]);
                assert(found matches Some(j) ==> successors@ == before.push(j));
                assert(found is None ==> successors@ == before);
                assert forall|v: int|
                    #![trigger lists(successors@, v)]
                    #![trigger reads_target(all, i as int, d + 1, v)]
                    lists(successors@, v) == reads_target(all, i as int, d + 1, v) by {
                    if lists(successors@, v) {
                        let k = choose|k: int| 0 <= k < successors@.len() && #[trigger] successors@[k] == v;
                        if k < before.len() {
                            assert(before[k] == v);
                            assert(lists(before, v));
                            let e = choose|e: int|
                                0 <= e < d && #[trigger] last_with_target(all, all[i as int].dependencies[e])
                                    == Some(v);
                            assert(last_with_target(all, all[i as int].dependencies[e]) == Some(v));
                        } else {
                            assert(last_with_target(all, all[i as int].dependencies[d as int]) == Some(v));
                        }
                    }
                    if reads_target(all, i as int, d + 1, v) {
                        let e = choose|e: int|
                            0 <= e < d + 1 && #[trigger] last_with_target(all, all[i as int].dependencies[e])
                                == Some(v);
                        if e < d {
                            assert(reads_target(all, i as int, d as int, v));
                            let k = choose|k: int| 0 <= k < before.len() && #[trigger] before[k] == v;
                            assert(successors@[k] == v);
                        } else {
                            assert(successors@[before.len() as int] == v);
                        }
                    }
                }
            }
            d = d + 1;
        }
        let ghost added = successors@;
        graph.push(successors);
        proof {
            assert(graph@[i as int]@ == added);
            assert(all[i as int].dependencies.len() == d);
        }
        i = i + 1;
    }
    proof {
        assert forall|i: int, j: int| #[trigger] edge(graph@, i, j) == depends_on(all, i, j) by {
            if 0 <= i < n {
            }
        }
    }
    graph
}

pub proof fn lemma_walks_agree(graph: Seq<Vec<usize>>, formulas: Seq<ConfigView>, p: Seq<int>)
    requires
        forall|i: int, j: int| #[trigger] edge(graph, i, j) == depends_on(formulas, i, j),
    ensures
        is_walk(graph, p) == dependency_walk(formulas, p),
{
    assert forall|k: int| #![trigger step(graph, p, k)] #![trigger dependency_step(formulas, p, k)]
        step(graph, p, k) == dependency_step(formulas, p, k) by {
        assert(edge(graph, p[k], p[k + 1]) == depends_on(formulas, p[k], p[k + 1]));
    }
}

/// Rejects formulas whose dependencies form a cycle.
pub fn reject_cycles(formulas: &[FormulaConfig]) -> (r: Result<(), String>)
    ensures
        r is Ok <==> !has_dependency_cycle(config_views(formulas@)),
        r matches Err(m) ==> m@ == "Formula dependencies contain a cycle."@,
{
    let ghost all = config_views(formulas@);
    let graph = dependency_graph(formulas);
    let n = formulas.len();
    let mut visiting: Vec<bool> = Vec::new();
    let mut visited: Vec<bool> = Vec::new();
    let mut k: usize = 0;
    while k < n
        invariant
            k <= n,
            visiting@.len() == k,
            visited@.len() == k,
            forall|v: int| 0 <= v < k ==> !(#[trigger] visiting@[v]),
            forall|v: int| 0 <= v < k ==> !(#[trigger] visited@[v]),
        decreases n - k,
    {
        visiting.push(false);
        visited.push(false);
        k = k + 1;
    }
    let mut i: usize = 0;
    while i < n
        invariant
            n == formulas@.len(),
            all == config_views(formulas@),
            graph@.len() == n,
            graph_wf(graph@),
            forall|a: int, b: int| #[trigger] edge(graph@, a, b) == depends_on(all, a, b),
            i <= n,
            colours_ok(graph@, visiting@, visited@),
            forall|v: int| 0 <= v < n ==> !(#[trigger] visiting@[v]),
            forall|j: int|
                0 <= j < i && #[trigger] last_with_target(all, all[j].target) == Some(j) ==> visited@[j],
        decreases n - i,
    {
        let ghost before = visited@;
        match find_target(formulas, formulas[i].target_attribute_id.as_str()) {
            Some(j) => {
                if j == i {
                    if has_cycle(i, &graph, &mut visiting, &mut visited) {
                        proof {
                            let v = choose|v: int| #[trigger] reaches(graph@, i as int, v) && reaches(graph@, v, v);
                            let p = choose|p: Seq<int>|
                                p.len() >= 2 && p[0] == v && p[p.len() - 1] == v && #[trigger] is_walk(
                                    graph@,
                                    p,
                                );
                            lemma_walks_agree(graph@, all, p);
                            assert(dependency_walk(all, p));
                        }
                        return Err(String::from_str("Formula dependencies contain a cycle."));
                    }
                }
            },
            None => {},
        }
        proof {
            assert forall|j: int|
                0 <= j < i + 1 && #[trigger] last_with_target(all, all[j].target) == Some(j) implies visited@[j] by {
                if j < i {
                    assert(before[j]);
                } else {
                    assert(all[j].target == formulas@[i as int].target_attribute_id@);
                }
            }
        }
        i = i + 1;
    }
    proof {
        if has_dependency_cycle(all) {
            let p = choose|p: Seq<int>|
                p.len() >= 2 && p[0] == p[p.len() - 1] && #[trigger] dependency_walk(all, p);
            lemma_walks_agree(graph@, all, p);
            let last = p.len() - 2;
            assert(dependency_step(all, p, last));
            let v = p[p.len() - 1];
            let u = p[last];
            assert(depends_on(all, u, v));
            let d = choose|d: int|
                0 <= d < all[u].dependencies.len() as int && #[trigger] last_with_target(
                    all,
                    all[u].dependencies[d],
                ) == Some(v);
            lemma_last_with_target_bounds(all, all[u].dependencies[d]);
            assert(last_with_target(all, all[v].target) == Some(v));
            assert(visited@[v]);
            assert(reaches(graph@, v, v));
        }
    }
    Ok(())
}

} // verus!
