//! Cycle-breaking suggestions via a greedy minimum feedback arc set.
//!
//! Given the import edges and the dependency cycles (strongly connected
//! components with more than one member), lists the edges that lie inside a
//! cycle with the facts that rank them (how many cycles they lie in, how far
//! their target's importers reach, how many files their source imports and is
//! imported by), and then, for a ranked order of those edges, cuts them one by
//! one and records how many cycles are left after each cut.
use vstd::prelude::*;

use crate::file_graph::adjacency;
use crate::file_graph::edge_rel;
use crate::file_graph::find_name;
use crate::file_graph::graph_rel;
use crate::file_graph::node_id;
use crate::file_graph::node_seq;
use crate::file_graph::number_files;
use crate::file_graph::FileGraph;
use crate::graph::adj_matches;
use crate::graph::bfs;
use crate::graph::count_scc_leaders;
use crate::graph::count_true;
use crate::graph::lemma_count_true_bound;
use crate::graph::lemma_count_true_mono;
use crate::graph::lemma_reaches_reversed;
use crate::graph::lemma_reaches_self;
use crate::graph::reaches;
use crate::graph::reverse_reach_count;
use crate::graph::reversed;
use crate::graph::scc_count;
use crate::types::edge_views;
use crate::types::str_views;
use crate::types::ImportEdge;

verus! {

/// The reverse search for a file's importers stops once it has seen more than this many files.
pub const REACH_CAP: usize = 500;

/// Estimated impact of removing a single dependency edge.
#[derive(Debug, Clone, Copy, PartialEq, Eq)]
pub struct BreakImpact {
    /// How many cycles this edge participates in.
    pub cycles_broken: usize,
    /// Transitive reach of the target file (reverse blast radius).
    pub target_blast_radius: usize,
    /// Number of distinct files the source file imports.
    pub source_fan_out: usize,
    /// Number of distinct files that import the source file.
    pub source_fan_in: usize,
    /// Number of remaining cycles after removing this edge (and the ones before it).
    pub remaining_cycles: usize,
}

/// A suggestion for breaking a dependency cycle.
#[derive(Debug, Clone)]
pub struct CycleBreakSuggestion {
    /// File containing the import to remove.
    pub from_file: String,
    /// File being imported (the edge to cut).
    pub to_file: String,
    /// Impact analysis of removing this edge.
    pub impact: BreakImpact,
}

/// Result of cycle-break analysis for the entire codebase.
#[derive(Debug, Clone)]
pub struct CycleBreakReport {
    /// Total cycles before any fixes.
    pub total_cycles: usize,
    /// Ordered list of edges to remove.
    pub suggestions: Vec<CycleBreakSuggestion>,
    /// Lower bound on the number of edge removals needed to leave no cycle:
    /// the number of cycles, each of which needs a cut of its own; 0 when no
    /// cycles were given.
    pub min_removals: usize,
}

/// Number of distinct files that `x` imports in `es`.
pub open spec fn fan_out_count(es: Seq<(Seq<char>, Seq<char>)>, x: Seq<char>) -> nat
    decreases es.len(),
{
    if es.len() == 0 {
        0
    } else {
        fan_out_count(es.drop_last(), x) + if es.last().0 == x && !es.drop_last().contains(
            es.last(),
        ) {
            1nat
        } else {
            0nat
        }
    }
}

/// Number of distinct files that import `x` in `es`.
pub open spec fn fan_in_count(es: Seq<(Seq<char>, Seq<char>)>, x: Seq<char>) -> nat
    decreases es.len(),
{
    if es.len() == 0 {
        0
    } else {
        fan_in_count(es.drop_last(), x) + if es.last().1 == x && !es.drop_last().contains(
            es.last(),
        ) {
            1nat
        } else {
            0nat
        }
    }
}

/// `(name, count)` for each name of `ns`, in order, whose count is positive.
pub open spec fn positive_entries(ns: Seq<Seq<char>>, count: spec_fn(Seq<char>) -> nat) -> Seq<
    (Seq<char>, nat),
> {
    ns.filter_map(
        |x: Seq<char>|
            if count(x) > 0 {
                Some((x, count(x)))
            } else {
                None
            },
    )
}

/// The texts and numbers of a list of `(name, count)` entries.
pub open spec fn count_views(v: Seq<(String, usize)>) -> Seq<(Seq<char>, nat)> {
    v.map_values(|p: (String, usize)| (p.0@, p.1 as nat))
}

/// The blast radius of file `x` of `es`: how many other files depend on it,
/// directly or transitively, capped at `REACH_CAP`.
pub open spec fn blast_radius(es: Seq<(Seq<char>, Seq<char>)>, x: int) -> int {
    let others = reverse_reach_count(edge_rel(es), node_seq(es).len(), x) - 1;
    if others < REACH_CAP {
        others
    } else {
        REACH_CAP as int
    }
}

/// The cycles as lists of member texts.
pub open spec fn cycle_views(cycles: Seq<Vec<String>>) -> Seq<Seq<Seq<char>>> {
    cycles.map_values(|c: Vec<String>| str_views(c@))
}

/// Number of cycles that hold both `a` and `b`.
pub open spec fn cycles_through(cs: Seq<Seq<Seq<char>>>, a: Seq<char>, b: Seq<char>) -> nat
    decreases cs.len(),
{
    if cs.len() == 0 {
        0
    } else {
        cycles_through(cs.drop_last(), a, b) + if cs.last().contains(a) && cs.last().contains(b) {
            1nat
        } else {
            0nat
        }
    }
}

/// Positions, among the first `k` edges, of the edges that lie inside some cycle.
pub open spec fn cycle_edge_positions(
    es: Seq<(Seq<char>, Seq<char>)>,
    cs: Seq<Seq<Seq<char>>>,
    k: int,
) -> Seq<int>
    decreases k,
{
    if k <= 0 {
        Seq::empty()
    } else if cycles_through(cs, es[k - 1].0, es[k - 1].1) > 0 {
        cycle_edge_positions(es, cs, k - 1).push(k - 1)
    } else {
        cycle_edge_positions(es, cs, k - 1)
    }
}

/// `s` describes the `k`-th edge of `es`, before any edge is cut.
pub open spec fn describes_edge(
    es: Seq<(Seq<char>, Seq<char>)>,
    cs: Seq<Seq<Seq<char>>>,
    k: int,
    s: CycleBreakSuggestion,
) -> bool {
    &&& s.from_file@ == es[k].0
    &&& s.to_file@ == es[k].1
    &&& s.impact.cycles_broken == cycles_through(cs, es[k].0, es[k].1)
    &&& s.impact.target_blast_radius == blast_radius(es, node_id(es, es[k].1))
    &&& s.impact.source_fan_out == fan_out_count(es, es[k].0)
    &&& s.impact.source_fan_in == fan_in_count(es, es[k].0)
    &&& s.impact.remaining_cycles == 0
}

/// The edges named by the first `j` suggestions.
pub open spec fn cut_pairs(ranked: Seq<CycleBreakSuggestion>, j: int) -> Seq<
    (Seq<char>, Seq<char>),
> {
    ranked.take(j).map_values(|s: CycleBreakSuggestion| (s.from_file@, s.to_file@))
}

/// Number of cycles left in `es` once the edges of the first `j` suggestions are cut.
pub open spec fn cycles_left(
    es: Seq<(Seq<char>, Seq<char>)>,
    ranked: Seq<CycleBreakSuggestion>,
    j: int,
) -> nat {
    scc_count(graph_rel(node_seq(es), es, cut_pairs(ranked, j)), node_seq(es).len())
}

/// The greedy pass stops after `l` suggestions: none are left, the limit is
/// reached, or no cycle is left (before any cut: the given cycle list is empty).
pub open spec fn greedy_done(
    es: Seq<(Seq<char>, Seq<char>)>,
    total: nat,
    ranked: Seq<CycleBreakSuggestion>,
    max: nat,
    l: int,
) -> bool {
    ||| l >= ranked.len()
    ||| l >= max
    ||| if l == 0 {
        total == 0
    } else {
        cycles_left(es, ranked, l) == 0
    }
}

/// `s` is the suggestion `r` with the given number of cycles left.
pub open spec fn same_with_remaining(
    s: CycleBreakSuggestion,
    r: CycleBreakSuggestion,
    left: nat,
) -> bool {
    &&& s.from_file@ == r.from_file@
    &&& s.to_file@ == r.to_file@
    &&& s.impact.cycles_broken == r.impact.cycles_broken
    &&& s.impact.target_blast_radius == r.impact.target_blast_radius
    &&& s.impact.source_fan_out == r.impact.source_fan_out
    &&& s.impact.source_fan_in == r.impact.source_fan_in
    &&& s.impact.remaining_cycles == left
}

proof fn lemma_fan_counts_bound(es: Seq<(Seq<char>, Seq<char>)>, x: Seq<char>)
    ensures
        fan_out_count(es, x) <= es.len(),
        fan_in_count(es, x) <= es.len(),
    decreases es.len(),
{
    if es.len() > 0 {
        lemma_fan_counts_bound(es.drop_last(), x);
    }
}

proof fn lemma_cycles_through_bound(cs: Seq<Seq<Seq<char>>>, a: Seq<char>, b: Seq<char>)
    ensures
        cycles_through(cs, a, b) <= cs.len(),
    decreases cs.len(),
{
    if cs.len() > 0 {
        lemma_cycles_through_bound(cs.drop_last(), a, b);
    }
}

fn vec_contains(v: &Vec<usize>, x: usize) -> (b: bool)
    ensures
        b == v@.contains(x),
{
    let mut i: usize = 0;
    while i < v.len()
        invariant
            0 <= i <= v.len(),
            forall|j: int| 0 <= j < i ==> v@[j] != x,
        decreases v.len() - i,
    {
        if v[i] == x {
            return true;
        }
        i += 1;
    }
    false
}

fn all_true(m: usize) -> (v: Vec<bool>)
    ensures
        v.len() == m,
        forall|k: int| 0 <= k < m ==> #[trigger] v@[k],
{
    let mut v: Vec<bool> = Vec::new();
    let mut i: usize = 0;
    while i < m
        invariant
            0 <= i <= m,
            v.len() == i,
            forall|k: int| 0 <= k < i ==> #[trigger] v@[k],
        decreases m - i,
    {
        v.push(true);
        i += 1;
    }
    v
}

/// Per numbered file: how many distinct files it imports, and how many import it.
fn fan_counts(g: &FileGraph, Ghost(es): Ghost<Seq<(Seq<char>, Seq<char>)>>) -> (r: (
    Vec<usize>,
    Vec<usize>,
))
    requires
        g.numbers(es),
    ensures
        r.0.len() == g.names.len(),
        r.1.len() == g.names.len(),
        forall|x: int|
            0 <= x < g.names.len() ==> #[trigger] r.0@[x] == fan_out_count(es, node_seq(es)[x])
                && r.1@[x] == fan_in_count(es, node_seq(es)[x]),
{
    let ghost ns = node_seq(es);
    let n = g.names.len();
    let mut out: Vec<usize> = Vec::new();
    let mut inc: Vec<usize> = Vec::new();
    let mut seen: Vec<Vec<usize>> = Vec::new();
    let mut i: usize = 0;
    while i < n
        invariant
            0 <= i <= n,
            out.len() == i,
            inc.len() == i,
            seen.len() == i,
            forall|x: int| 0 <= x < i ==> #[trigger] out@[x] == 0 && inc@[x] == 0 && seen@[x]@.len()
                == 0,
        decreases n - i,
    {
        out.push(0);
        inc.push(0);
        seen.push(Vec::new());
        i += 1;
    }
    let mut k: usize = 0;
    assert(es.take(0) =~= Seq::<(Seq<char>, Seq<char>)>::empty());
    assert forall|x: int| 0 <= x < n implies #[trigger] out@[x] == fan_out_count(es.take(0), ns[x])
        && inc@[x] == fan_in_count(es.take(0), ns[x]) by {
        assert(out@[x] == 0);
    }
    assert forall|x: int, y: usize| 0 <= x < n && y < n implies (#[trigger] seen@[x]@.contains(y)
        <==> es.take(0).contains((ns[x], ns[y as int]))) by {
        assert(out@[x] == 0);
        assert(seen@[x]@.len() == 0);
    }
    while k < g.ends.len()
        invariant
            g.numbers(es),
            ns == node_seq(es),
            n == g.names.len(),
            n == ns.len(),
            0 <= k <= es.len(),
            out.len() == n,
            inc.len() == n,
            seen.len() == n,
            forall|x: int|
                0 <= x < n ==> #[trigger] out@[x] == fan_out_count(es.take(k as int), ns[x])
                    && inc@[x] == fan_in_count(es.take(k as int), ns[x]),
            forall|x: int, y: usize|
                0 <= x < n && y < n ==> (#[trigger] seen@[x]@.contains(y) <==> es.take(
                    k as int,
                ).contains((ns[x], ns[y as int]))),
        decreases es.len() - k,
    {
        let (a, b) = g.ends[k];
        assert(g.ends@[k as int] == (a, b));
        let ghost pre = es.take(k as int);
        let ghost post = es.take(k + 1);
        assert(post.drop_last() =~= pre);
        assert(post.last() == es[k as int]);
        assert(es[k as int] == (ns[a as int], ns[b as int]));
        proof {
            lemma_fan_counts_bound(pre, ns[a as int]);
            lemma_fan_counts_bound(pre, ns[b as int]);
        }
        assert(seen@[a as int]@.contains(b) == pre.contains((ns[a as int], ns[b as int])));
        let fresh = !vec_contains(&seen[a], b);
        assert(fresh == !pre.contains(es[k as int]));
        let ghost old_out = out@;
        let ghost old_inc = inc@;
        let ghost old_seen = seen@;
        assert(out@[a as int] == fan_out_count(pre, ns[a as int]));
        assert(out@[b as int] == fan_out_count(pre, ns[b as int]));
        if fresh {
            seen[a].push(b);
            let oa = out[a];
            out.set(a, oa + 1);
            let ib = inc[b];
            inc.set(b, ib + 1);
        }
        assert forall|x: int|
            0 <= x < n implies #[trigger] out@[x] == fan_out_count(post, ns[x]) && inc@[x]
                == fan_in_count(post, ns[x]) by {
            assert(ns[a as int] == ns[x] <==> a == x);
            assert(ns[b as int] == ns[x] <==> b == x);
            assert(fan_out_count(post, ns[x]) == fan_out_count(pre, ns[x]) + if post.last().0
                == ns[x] && !pre.contains(post.last()) {
                1nat
            } else {
                0nat
            });
            assert(fan_in_count(post, ns[x]) == fan_in_count(pre, ns[x]) + if post.last().1
                == ns[x] && !pre.contains(post.last()) {
                1nat
            } else {
                0nat
            });
            assert(old_out[x] == fan_out_count(pre, ns[x]));
            assert(old_inc[x] == fan_in_count(pre, ns[x]));
        }
        assert forall|x: int, y: usize|
            0 <= x < n && y < n implies (#[trigger] seen@[x]@.contains(y) <==> post.contains(
                (ns[x], ns[y as int]),
            )) by {
            let p = (ns[x], ns[y as int]);
            assert(old_seen[x]@.contains(y) <==> pre.contains(p));
            assert(post.contains(p) <==> pre.contains(p) || p == es[k as int]) by {
                if post.contains(p) && !pre.contains(p) {
                    let q = choose|q: int| 0 <= q < post.len() && post[q] == p;
                    if q < k {
                        assert(pre[q] == p);
                    }
                }
                if p == es[k as int] {
                    assert(post[k as int] == p);
                }
                if pre.contains(p) {
                    let q = choose|q: int| 0 <= q < pre.len() && pre[q] == p;
                    assert(post[q] == p);
                }
            }
            assert(p == es[k as int] <==> (x == a && y == b));
            if x == a && fresh {
                assert(seen@[x]@ == old_seen[x]@.push(b));
                if old_seen[x]@.contains(y) {
                    let q = choose|q: int| 0 <= q < old_seen[x]@.len() && old_seen[x]@[q] == y;
                    assert(seen@[x]@[q] == y);
                }
                if seen@[x]@.contains(y) && y != b {
                    let q = choose|q: int| 0 <= q < seen@[x]@.len() && seen@[x]@[q] == y;
                    assert(old_seen[x]@[q] == y);
                }
            } else {
                assert(seen@[x] == old_seen[x]);
            }
            if post.contains(p) && !pre.contains(p) {
                let q = choose|q: int| 0 <= q < post.len() && post[q] == p;
                assert(q == k);
                assert(x == a && y == b);
                assert(seen@[x]@[seen@[x]@.len() - 1] == b);
            }
            if pre.contains(p) {
                let q = choose|q: int| 0 <= q < pre.len() && pre[q] == p;
                assert(post[q] == p);
            }
        }
        k += 1;
    }
    assert(es.take(es.len() as int) =~= es);
    (out, inc)
}

/// Per numbered file, the capped count of the other files that reach it.
fn reverse_reaches(g: &FileGraph, bwd: &Vec<Vec<usize>>, Ghost(es): Ghost<
    Seq<(Seq<char>, Seq<char>)>,
>) -> (r: Vec<usize>)
    requires
        g.numbers(es),
        adj_matches(bwd@, g.names.len() as int, reversed(edge_rel(es))),
    ensures
        r.len() == g.names.len(),
        forall|x: int| 0 <= x < g.names.len() ==> #[trigger] r@[x] == blast_radius(es, x),
{
    let ghost e = edge_rel(es);
    let n = g.names.len();
    let mut r: Vec<usize> = Vec::new();
    let mut x: usize = 0;
    while x < n
        invariant
            n == g.names.len(),
            n == bwd.len(),
            adj_matches(bwd@, n as int, reversed(e)),
            0 <= x <= n,
            r.len() == x,
            forall|y: int| 0 <= y < x ==> #[trigger] r@[y] == blast_radius(es, y),
            e == edge_rel(es),
            n == node_seq(es).len(),
        decreases n - x,
    {
        let (vis, count) = bfs(bwd, x, REACH_CAP, Ghost(reversed(e)));
        let ghost all = Seq::new(n as nat, |v: int| reaches(e, v, x as int));
        assert forall|v: int| 0 <= v < n && #[trigger] vis@[v] implies all[v] by {
            lemma_reaches_reversed(e, x as int, v);
        }
        proof {
            lemma_count_true_mono(vis@, all);
            lemma_count_true_bound(vis@);
            lemma_reaches_self(e, x as int);
            if count <= REACH_CAP {
                assert forall|v: int| 0 <= v < n && #[trigger] all[v] implies vis@[v] by {
                    lemma_reaches_reversed(e, x as int, v);
                }
                lemma_count_true_mono(all, vis@);
            }
            // the start is visited, so the count is at least one
            crate::graph::lemma_count_true_set(vis@.update(x as int, false), x as int);
            assert(vis@.update(x as int, false).update(x as int, true) =~= vis@);
        }
        let others = count - 1;
        let radius = if others < REACH_CAP {
            others
        } else {
            REACH_CAP
        };
        r.push(radius);
        x += 1;
    }
    r
}

/// Number of dependency cycles (strongly connected components with more than
/// one member) among the files of `edges`.
pub fn count_cycles(edges: &[ImportEdge]) -> (c: usize)
    ensures
        c == scc_count(edge_rel(edge_views(edges@)), node_seq(edge_views(edges@)).len()),
{
    let ghost es = edge_views(edges@);
    let g = number_files(edges);
    let keep = all_true(edges.len());
    let fwd = adjacency(&g, &keep, false, Ghost(es), Ghost(Seq::empty()));
    let bwd = adjacency(&g, &keep, true, Ghost(es), Ghost(Seq::empty()));
    count_scc_leaders(&fwd, &bwd, Ghost(edge_rel(es)))
}

/// `(name, count)` for each named file whose count is positive, in numbering order.
fn positive_list(names: &Vec<String>, counts: &Vec<usize>, Ghost(count): Ghost<
    spec_fn(Seq<char>) -> nat,
>) -> (r: Vec<(String, usize)>)
    requires
        names.len() == counts.len(),
        forall|x: int| 0 <= x < names.len() ==> #[trigger] counts@[x] == count(names@[x]@),
    ensures
        count_views(r@) == positive_entries(str_views(names@), count),
{
    let ghost ns = str_views(names@);
    let mut r: Vec<(String, usize)> = Vec::new();
    let mut i: usize = 0;
    assert(ns.take(0) =~= Seq::<Seq<char>>::empty());
    while i < names.len()
        invariant
            ns == str_views(names@),
            names.len() == counts.len(),
            forall|x: int| 0 <= x < names.len() ==> #[trigger] counts@[x] == count(names@[x]@),
            0 <= i <= names.len(),
            count_views(r@) == positive_entries(ns.take(i as int), count),
        decreases names.len() - i,
    {
        assert(ns.take(i + 1).drop_last() =~= ns.take(i as int));
        assert(ns.take(i + 1).last() == names@[i as int]@);
        assert(counts@[i as int] == count(names@[i as int]@));
        if counts[i] > 0 {
            let ghost before = r@;
            r.push((names[i].clone(), counts[i]));
            assert(count_views(r@) =~= count_views(before).push((names@[i as int]@, counts@[i as int] as nat)));
        }
        i += 1;
    }
    assert(ns.take(names.len() as int) =~= ns);
    r
}

/// For each file of `edges`, how many distinct files it imports (fan-out) and
/// how many distinct files import it (fan-in); files with a count of zero are
/// left out of that list.
pub fn compute_fan_maps(edges: &[ImportEdge]) -> (r: (Vec<(String, usize)>, Vec<(String, usize)>))
    ensures
        count_views(r.0@) == positive_entries(
            node_seq(edge_views(edges@)),
            |x: Seq<char>| fan_out_count(edge_views(edges@), x),
        ),
        count_views(r.1@) == positive_entries(
            node_seq(edge_views(edges@)),
            |x: Seq<char>| fan_in_count(edge_views(edges@), x),
        ),
{
    let ghost es = edge_views(edges@);
    let g = number_files(edges);
    let (out, inc) = fan_counts(&g, Ghost(es));
    let ghost fo = |x: Seq<char>| fan_out_count(es, x);
    let ghost fi = |x: Seq<char>| fan_in_count(es, x);
    assert forall|x: int| 0 <= x < g.names.len() implies #[trigger] out@[x] == fo(g.names@[x]@) by {
        assert(str_views(g.names@)[x] == g.names@[x]@);
    }
    assert forall|x: int| 0 <= x < g.names.len() implies #[trigger] inc@[x] == fi(g.names@[x]@) by {
        assert(str_views(g.names@)[x] == g.names@[x]@);
        assert(out@[x] == fo(g.names@[x]@));
    }
    let fan_out = positive_list(&g.names, &out, Ghost(fo));
    let fan_in = positive_list(&g.names, &inc, Ghost(fi));
    (fan_out, fan_in)
}

/// For each file of `edges`, in numbering order, the number of other files that
/// depend on it directly or transitively (its blast radius), capped at
/// `REACH_CAP`; the search for those files stops once the cap is passed.
pub fn compute_reverse_reach(edges: &[ImportEdge]) -> (r: Vec<(String, usize)>)
    ensures
        r.len() == node_seq(edge_views(edges@)).len(),
        forall|x: int|
            0 <= x < r.len() ==> (#[trigger] r@[x]).0@ == node_seq(edge_views(edges@))[x]
                && r@[x].1 == blast_radius(edge_views(edges@), x),
{
    let ghost es = edge_views(edges@);
    let g = number_files(edges);
    let keep = all_true(edges.len());
    let bwd = adjacency(&g, &keep, true, Ghost(es), Ghost(Seq::empty()));
    let reach = reverse_reaches(&g, &bwd, Ghost(es));
    let mut r: Vec<(String, usize)> = Vec::new();
    let mut x: usize = 0;
    while x < g.names.len()
        invariant
            g.numbers(es),
            reach.len() == g.names.len(),
            forall|y: int| 0 <= y < g.names.len() ==> #[trigger] reach@[y] == blast_radius(es, y),
            0 <= x <= g.names.len(),
            r.len() == x,
            forall|y: int|
                0 <= y < x ==> (#[trigger] r@[y]).0@ == node_seq(es)[y] && r@[y].1 == reach@[y],
        decreases g.names.len() - x,
    {
        assert(str_views(g.names@)[x as int] == g.names@[x as int]@);
        r.push((g.names[x].clone(), reach[x]));
        x += 1;
    }
    r
}

/// For each file of `g`: whether the cycle `members` holds it.
fn member_marks(g: &FileGraph, members: &Vec<String>, Ghost(es): Ghost<
    Seq<(Seq<char>, Seq<char>)>,
>) -> (m: Vec<bool>)
    requires
        g.numbers(es),
    ensures
        m.len() == g.names.len(),
        forall|x: int|
            0 <= x < g.names.len() ==> #[trigger] m@[x] == str_views(members@).contains(
                node_seq(es)[x],
            ),
{
    let ghost ns = node_seq(es);
    let ghost ms = str_views(members@);
    let n = g.names.len();
    let mut m: Vec<bool> = Vec::new();
    let mut i: usize = 0;
    while i < n
        invariant
            0 <= i <= n,
            m.len() == i,
            forall|x: int| 0 <= x < i ==> !#[trigger] m@[x],
        decreases n - i,
    {
        m.push(false);
        i += 1;
    }
    let mut j: usize = 0;
    while j < members.len()
        invariant
            g.numbers(es),
            ns == node_seq(es),
            ms == str_views(members@),
            n == g.names.len(),
            0 <= j <= members.len(),
            m.len() == n,
            forall|x: int| 0 <= x < n ==> #[trigger] m@[x] == ms.take(j as int).contains(ns[x]),
        decreases members.len() - j,
    {
        let ghost pre = ms.take(j as int);
        let ghost post = ms.take(j + 1);
        assert(post =~= pre.push(members@[j as int]@));
        let found = find_name(&g.names, &members[j]);
        let ghost old_m = m@;
        if let Some(i) = found {
            m.set(i, true);
        }
        let ghost mj = members@[j as int]@;
        assert forall|x: int| 0 <= x < n implies #[trigger] m@[x] == post.contains(ns[x]) by {
            assert(str_views(g.names@)[x] == ns[x]);
            assert(post.contains(ns[x]) <==> pre.contains(ns[x]) || ns[x] == mj) by {
                if pre.contains(ns[x]) {
                    let q = choose|q: int| 0 <= q < pre.len() && pre[q] == ns[x];
                    assert(post[q] == ns[x]);
                }
                if post.contains(ns[x]) && !pre.contains(ns[x]) {
                    let q = choose|q: int| 0 <= q < post.len() && post[q] == ns[x];
                    if q < j {
                        assert(pre[q] == ns[x]);
                    }
                }
                if ns[x] == mj {
                    assert(post[j as int] == mj);
                }
            }
            assert(old_m[x] == pre.contains(ns[x]));
            match found {
                Some(i) => {
                    assert(str_views(g.names@)[i as int] == g.names@[i as int]@);
                    assert(ns[i as int] == mj);
                    if x == i {
                        assert(m@[x]);
                    } else {
                        assert(m@[x] == old_m[x]);
                        assert(ns[x] != ns[i as int]);
                    }
                },
                None => {
                    assert(m@[x] == old_m[x]);
                    if ns[x] == mj {
                        assert(str_views(g.names@).contains(mj));
                    }
                },
            }
        }
        j += 1;
    }
    assert(ms.take(members.len() as int) =~= ms);
    m
}

proof fn lemma_node_id(es: Seq<(Seq<char>, Seq<char>)>, x: int)
    requires
        node_seq(es).no_duplicates(),
        0 <= x < node_seq(es).len(),
    ensures
        node_id(es, node_seq(es)[x]) == x,
{
    let ns = node_seq(es);
    let i = ns.index_of(ns[x]);
    assert(0 <= i < ns.len() && ns[i] == ns[x]);
}

/// The edges of `edges` that lie inside at least one of `cycles` (both ends
/// are members), in edge order, each with its number of cycles, its target's
/// blast radius and its source's fan-out and fan-in; `remaining_cycles` is 0.
pub fn cycle_edge_candidates(edges: &[ImportEdge], cycles: &[Vec<String>]) -> (r: Vec<
    CycleBreakSuggestion,
>)
    ensures
        r.len() == cycle_edge_positions(
            edge_views(edges@),
            cycle_views(cycles@),
            edges.len() as int,
        ).len(),
        forall|j: int|
            0 <= j < r.len() ==> describes_edge(
                edge_views(edges@),
                cycle_views(cycles@),
                cycle_edge_positions(edge_views(edges@), cycle_views(cycles@), edges.len() as int)[j],
                #[trigger] r@[j],
            ),
{
    let ghost es = edge_views(edges@);
    let ghost cs = cycle_views(cycles@);
    let ghost ns = node_seq(es);
    let g = number_files(edges);
    let keep = all_true(edges.len());
    let bwd = adjacency(&g, &keep, true, Ghost(es), Ghost(Seq::empty()));
    let reach = reverse_reaches(&g, &bwd, Ghost(es));
    let (out, inc) = fan_counts(&g, Ghost(es));
    let mut marks: Vec<Vec<bool>> = Vec::new();
    let mut c: usize = 0;
    while c < cycles.len()
        invariant
            g.numbers(es),
            cs == cycle_views(cycles@),
            0 <= c <= cycles.len(),
            marks.len() == c,
            forall|d: int|
                0 <= d < c ==> (#[trigger] marks@[d]).len() == g.names.len() && forall|x: int|
                    0 <= x < g.names.len() ==> #[trigger] marks@[d]@[x] == cs[d].contains(
                        node_seq(es)[x],
                    ),
        decreases cycles.len() - c,
    {
        let m = member_marks(&g, &cycles[c], Ghost(es));
        marks.push(m);
        c += 1;
    }
    let mut r: Vec<CycleBreakSuggestion> = Vec::new();
    let mut k: usize = 0;
    while k < edges.len()
        invariant
            g.numbers(es),
            es == edge_views(edges@),
            cs == cycle_views(cycles@),
            ns == node_seq(es),
            marks.len() == cycles.len(),
            forall|d: int|
                0 <= d < cycles.len() ==> (#[trigger] marks@[d]).len() == g.names.len() && forall|
                    x: int,
                |
                    0 <= x < g.names.len() ==> #[trigger] marks@[d]@[x] == cs[d].contains(ns[x]),
            reach.len() == g.names.len(),
            forall|y: int| 0 <= y < g.names.len() ==> #[trigger] reach@[y] == blast_radius(es, y),
            out.len() == g.names.len(),
            inc.len() == g.names.len(),
            forall|x: int|
                0 <= x < g.names.len() ==> #[trigger] out@[x] == fan_out_count(es, ns[x])
                    && inc@[x] == fan_in_count(es, ns[x]),
            0 <= k <= edges.len(),
            r.len() == cycle_edge_positions(es, cs, k as int).len(),
            forall|j: int|
                0 <= j < r.len() ==> describes_edge(
                    es,
                    cs,
                    cycle_edge_positions(es, cs, k as int)[j],
                    #[trigger] r@[j],
                ),
            forall|j: int|
                0 <= j < cycle_edge_positions(es, cs, k as int).len() ==> 0 <= (
                #[trigger] cycle_edge_positions(es, cs, k as int)[j]) < k,
        decreases edges.len() - k,
    {
        let (a, b) = g.ends[k];
        assert(g.ends@[k as int] == (a, b));
        let mut broken: usize = 0;
        let mut d: usize = 0;
        while d < cycles.len()
            invariant
                marks.len() == cycles.len(),
                forall|d: int|
                    0 <= d < cycles.len() ==> (#[trigger] marks@[d]).len() == g.names.len()
                        && forall|x: int|
                        0 <= x < g.names.len() ==> #[trigger] marks@[d]@[x] == cs[d].contains(
                            ns[x],
                        ),
                cs == cycle_views(cycles@),
                a < g.names.len(),
                b < g.names.len(),
                0 <= d <= cycles.len(),
                broken == cycles_through(cs.take(d as int), ns[a as int], ns[b as int]),
            decreases cycles.len() - d,
        {
            assert(cs.take(d + 1).drop_last() =~= cs.take(d as int));
            proof {
                lemma_cycles_through_bound(cs.take(d as int), ns[a as int], ns[b as int]);
            }
            if marks[d][a] && marks[d][b] {
                broken += 1;
            }
            d += 1;
        }
        assert(cs.take(cycles.len() as int) =~= cs);
        assert(ns[a as int] == es[k as int].0 && ns[b as int] == es[k as int].1);
        let ghost before = cycle_edge_positions(es, cs, k as int);
        if broken > 0 {
            proof {
                lemma_node_id(es, b as int);
            }
            assert(out@[a as int] == fan_out_count(es, ns[a as int]));
            let s = CycleBreakSuggestion {
                from_file: edges[k].from_file.clone(),
                to_file: edges[k].to_file.clone(),
                impact: BreakImpact {
                    cycles_broken: broken,
                    target_blast_radius: reach[b],
                    source_fan_out: out[a],
                    source_fan_in: inc[a],
                    remaining_cycles: 0,
                },
            };
            r.push(s);
            assert(describes_edge(es, cs, k as int, s));
            assert(cycle_edge_positions(es, cs, k + 1) == before.push(k as int));
        }
        k += 1;
    }
    r
}

/// Greedy minimum feedback arc set: takes the `ranked` edges in order and cuts
/// each (every copy of it) from `edges`, recording how many cycles are left;
/// stops when none is left, when `max_suggestions` are made, or when the
/// ranked list runs out. `cycles` are the cycles before any cut; when there
/// are none, the report is empty and needs no removal.
pub fn greedy_cycle_breaks(
    edges: &[ImportEdge],
    cycles: &[Vec<String>],
    ranked: &[CycleBreakSuggestion],
    max_suggestions: usize,
) -> (r: CycleBreakReport)
    ensures
        r.total_cycles == cycles.len(),
        r.suggestions.len() <= ranked.len(),
        r.suggestions.len() <= max_suggestions,
        greedy_done(
            edge_views(edges@),
            cycles.len() as nat,
            ranked@,
            max_suggestions as nat,
            r.suggestions.len() as int,
        ),
        forall|l: int|
            0 <= l < r.suggestions.len() ==> !#[trigger] greedy_done(
                edge_views(edges@),
                cycles.len() as nat,
                ranked@,
                max_suggestions as nat,
                l,
            ),
        forall|j: int|
            0 <= j < r.suggestions.len() ==> same_with_remaining(
                #[trigger] r.suggestions@[j],
                ranked@[j],
                cycles_left(edge_views(edges@), ranked@, j + 1),
            ),
        cycles.len() == 0 ==> r.suggestions.len() == 0 && r.min_removals == 0,
        cycles.len() != 0 ==> r.min_removals == scc_count(
            edge_rel(edge_views(edges@)),
            node_seq(edge_views(edges@)).len(),
        ),
        forall|cuts: Seq<(Seq<char>, Seq<char>)>|
            #[trigger] scc_count(
                graph_rel(node_seq(edge_views(edges@)), edge_views(edges@), cuts),
                node_seq(edge_views(edges@)).len(),
            ) == 0 ==> cuts.len() >= r.min_removals,
{
    let ghost es = edge_views(edges@);
    let ghost ns = node_seq(es);
    let ghost total = cycles.len() as nat;
    let ghost max = max_suggestions as nat;
    let g = number_files(edges);
    let mut keep = all_true(edges.len());
    let mut suggestions: Vec<CycleBreakSuggestion> = Vec::new();
    let mut remaining: usize = cycles.len();
    let mut j: usize = 0;
    assert(cut_pairs(ranked@, 0) =~= Seq::<(Seq<char>, Seq<char>)>::empty());
    while j < ranked.len() && remaining != 0 && suggestions.len() < max_suggestions
        invariant
            g.numbers(es),
            es == edge_views(edges@),
            ns == node_seq(es),
            total == cycles.len(),
            max == max_suggestions,
            keep.len() == edges.len(),
            0 <= j <= ranked.len(),
            j <= max_suggestions,
            suggestions.len() == j,
            remaining == (if j == 0 {
                total
            } else {
                cycles_left(es, ranked@, j as int)
            }),
            forall|k: int|
                0 <= k < edges.len() ==> (#[trigger] keep@[k] <==> !cut_pairs(
                    ranked@,
                    j as int,
                ).contains(es[k])),
            forall|l: int| 0 <= l < j ==> !#[trigger] greedy_done(es, total, ranked@, max, l),
            forall|i: int|
                0 <= i < j ==> same_with_remaining(
                    #[trigger] suggestions@[i],
                    ranked@[i],
                    cycles_left(es, ranked@, i + 1),
                ),
        decreases ranked.len() - j,
    {
        assert(!greedy_done(es, total, ranked@, max, j as int));
        let ghost cuts = cut_pairs(ranked@, j as int);
        let ghost cuts1 = cut_pairs(ranked@, j + 1);
        let ghost pair = (ranked@[j as int].from_file@, ranked@[j as int].to_file@);
        assert(ranked@.take(j + 1) =~= ranked@.take(j as int).push(ranked@[j as int]));
        assert(cuts1 =~= cuts.push(pair));
        let mut k: usize = 0;
        while k < edges.len()
            invariant
                es == edge_views(edges@),
                keep.len() == edges.len(),
                0 <= k <= edges.len(),
                j < ranked.len(),
                pair == (ranked@[j as int].from_file@, ranked@[j as int].to_file@),
                cuts1 == cuts.push(pair),
                forall|q: int|
                    0 <= q < k ==> (#[trigger] keep@[q] <==> !cuts1.contains(es[q])),
                forall|q: int|
                    k <= q < edges.len() ==> (#[trigger] keep@[q] <==> !cuts.contains(es[q])),
            decreases edges.len() - k,
        {
            assert(cuts1.contains(es[k as int]) <==> cuts.contains(es[k as int]) || es[k as int]
                == pair) by {
                if cuts1.contains(es[k as int]) {
                    let q = choose|q: int| 0 <= q < cuts1.len() && cuts1[q] == es[k as int];
                    if q < cuts.len() {
                        assert(cuts[q] == es[k as int]);
                    }
                }
                if cuts.contains(es[k as int]) {
                    let q = choose|q: int| 0 <= q < cuts.len() && cuts[q] == es[k as int];
                    assert(cuts1[q] == es[k as int]);
                }
                if es[k as int] == pair {
                    assert(cuts1[cuts.len() as int] == pair);
                }
            }
            if edges[k].from_file == ranked[j].from_file && edges[k].to_file == ranked[j].to_file {
                keep.set(k, false);
            }
            k += 1;
        }
        let fwd = adjacency(&g, &keep, false, Ghost(es), Ghost(cuts1));
        let bwd = adjacency(&g, &keep, true, Ghost(es), Ghost(cuts1));
        let left = count_scc_leaders(&fwd, &bwd, Ghost(graph_rel(ns, es, cuts1)));
        let s = CycleBreakSuggestion {
            from_file: ranked[j].from_file.clone(),
            to_file: ranked[j].to_file.clone(),
            impact: BreakImpact {
                cycles_broken: ranked[j].impact.cycles_broken,
                target_blast_radius: ranked[j].impact.target_blast_radius,
                source_fan_out: ranked[j].impact.source_fan_out,
                source_fan_in: ranked[j].impact.source_fan_in,
                remaining_cycles: left,
            },
        };
        suggestions.push(s);
        remaining = left;
        j += 1;
    }
    assert(greedy_done(es, total, ranked@, max, j as int));
    assert(total == 0 ==> j == 0) by {
        if total == 0 && j > 0 {
            assert(greedy_done(es, total, ranked@, max, 0));
        }
    }
    let min_removals = if cycles.len() == 0 {
        0
    } else {
        count_cycles(edges)
    };
    assert forall|cuts: Seq<(Seq<char>, Seq<char>)>|
        #[trigger] scc_count(graph_rel(ns, es, cuts), ns.len()) == 0 implies cuts.len()
            >= min_removals by {
        crate::laws::law_cycles_bound_removals(es, cuts);
    }
    CycleBreakReport { total_cycles: cycles.len(), suggestions, min_removals }
}

} // verus!
