//! Properties that hold of every input: what the parsers never report, how
//! source paths name classes and how names resolve to files, which file edges
//! the mapping produces and in what order, what fan-in and fan-out count,
//! where index paths come from, and which edges can be suggested for cutting.
use vstd::prelude::*;

use crate::cycle_break::cycle_edge_positions;
use crate::cycle_break::fan_in_count;
use crate::cycle_break::fan_out_count;
use crate::cycle_break::cycles_through;
use crate::cycle_break::greedy_done;
use crate::cycle_break::CycleBreakSuggestion;
use crate::file_graph::edge_rel;
use crate::file_graph::graph_rel;
use crate::file_graph::lemma_node_seq_distinct;
use crate::file_graph::node_seq;
use crate::graph::count_true;
use crate::graph::edges_within;
use crate::graph::is_path;
use crate::graph::is_scc_leader;
use crate::graph::lemma_count_true_mono;
use crate::graph::lemma_count_true_none;
use crate::graph::lemma_succ_in_component;
use crate::graph::mutual;
use crate::graph::reaches;
use crate::graph::scc_count;
use crate::jdeps::class_name_of;
use crate::jdeps::fqn_index_of;
use crate::jdeps::prefix_at;
use crate::jdeps::index_file;
use crate::jdeps::map_deps;
use crate::jdeps::resolve_fqn_spec;
use crate::jdeps::lookup_prefix;
use crate::jdeps_parse::dot_deps;
use crate::jdeps_parse::dot_line_dep;
use crate::jdeps_parse::is_jdk_class;
use crate::jdeps_parse::quoted;
use crate::jdeps_parse::verbose_deps;
use crate::jdeps_parse::verbose_line_dep;
use crate::text::first_index;
use crate::text::is_first_index;
use crate::text::last_index;

verus! {

/// Every element of `s.filter_map(f)` is an element that `f` gives for some element of `s`.
proof fn lemma_filter_map_from<A, B>(s: Seq<A>, f: spec_fn(A) -> Option<B>, i: int)
    requires
        0 <= i < s.filter_map(f).len(),
    ensures
        exists|x: A| #[trigger] f(x) == Some(s.filter_map(f)[i]),
    decreases s.len(),
{
    let rest = s.drop_last();
    match f(s.last()) {
        Some(y) => {
            if i < rest.filter_map(f).len() {
                lemma_filter_map_from(rest, f, i);
                let x = choose|x: A| #[trigger] f(x) == Some(rest.filter_map(f)[i]);
                assert(s.filter_map(f)[i] == rest.filter_map(f)[i]);
            } else {
                assert(s.filter_map(f)[i] == y);
            }
        },
        None => {
            lemma_filter_map_from(rest, f, i);
        },
    }
}

/// The `.dot` parser never reports a dependency on a JDK class.
pub proof fn law_dot_deps_skip_jdk(s: Seq<char>)
    ensures
        forall|i: int| 0 <= i < dot_deps(s).len() ==> !is_jdk_class(#[trigger] dot_deps(s)[i].1),
{
    let f = |l: Seq<char>| dot_line_dep(l);
    assert forall|i: int| 0 <= i < dot_deps(s).len() implies !is_jdk_class(
        #[trigger] dot_deps(s)[i].1,
    ) by {
        lemma_filter_map_from(crate::text::split_newlines(s), f, i);
        let x = choose|x: Seq<char>| #[trigger] f(x) == Some(dot_deps(s)[i]);
        assert(dot_line_dep(x) == Some(dot_deps(s)[i]));
    }
}

/// The verbose-output parser never reports an empty target or a JDK class.
pub proof fn law_verbose_deps_skip_jdk(s: Seq<char>)
    ensures
        forall|i: int|
            0 <= i < verbose_deps(s).len() ==> (#[trigger] verbose_deps(s)[i]).1.len() > 0
                && !is_jdk_class(verbose_deps(s)[i].1),
{
    let f = |l: Seq<char>| verbose_line_dep(l);
    assert forall|i: int| 0 <= i < verbose_deps(s).len() implies (
    #[trigger] verbose_deps(s)[i]).1.len() > 0 && !is_jdk_class(verbose_deps(s)[i].1) by {
        lemma_filter_map_from(crate::text::split_newlines(s), f, i);
        let x = choose|x: Seq<char>| #[trigger] f(x) == Some(verbose_deps(s)[i]);
        assert(verbose_line_dep(x) == Some(verbose_deps(s)[i]));
    }
}

/// The text between quotes never holds a quote.
pub proof fn law_quoted_has_no_quote(s: Seq<char>)
    ensures
        quoted(s) matches Some(q) ==> !q.contains('"'),
{
    if let Some(i) = first_index(s, '"') {
        let t = s.skip(i + 1);
        if let Some(j) = first_index(t, '"') {
            assert(exists|k: int| is_first_index(t, '"', k));
            let k = choose|k: int| is_first_index(t, '"', k);
            assert(is_first_index(t, '"', j));
            let q = s.subrange(i + 1, i + 1 + j);
            assert forall|m: int| 0 <= m < q.len() implies q[m] != '"' by {
                assert(q[m] == t[m]);
            }
        }
    }
}

/// Mapping dependencies to file edges gives each edge once, never an edge from
/// a file to itself, and no more edges and unmapped ones together than there
/// were dependencies.
pub proof fn law_mapped_edges_distinct(
    m: Map<Seq<char>, Seq<char>>,
    deps: Seq<(Seq<char>, Seq<char>)>,
)
    ensures
        map_deps(m, deps).0.no_duplicates(),
        forall|k: int|
            0 <= k < map_deps(m, deps).0.len() ==> (#[trigger] map_deps(m, deps).0[k]).0 != map_deps(
                m,
                deps,
            ).0[k].1,
        map_deps(m, deps).0.len() + map_deps(m, deps).1 <= deps.len(),
    decreases deps.len(),
{
    if deps.len() > 0 {
        law_mapped_edges_distinct(m, deps.drop_last());
        let (es, u) = map_deps(m, deps.drop_last());
        let d = deps.last();
        if let (Some(a), Some(b)) = (resolve_fqn_spec(m, d.0), resolve_fqn_spec(m, d.1)) {
            if a != b && !es.contains((a, b)) {
                let ne = es.push((a, b));
                assert(ne == map_deps(m, deps).0);
                assert forall|x: int, y: int|
                    0 <= x < ne.len() && 0 <= y < ne.len() && x != y implies ne[x] != ne[y] by {
                    if x < es.len() && y < es.len() {
                        assert(ne[x] == es[x] && ne[y] == es[y]);
                    } else if x < es.len() {
                        assert(ne[x] == es[x]);
                    } else {
                        assert(ne[y] == es[y]);
                    }
                }
                assert forall|k: int| 0 <= k < ne.len() implies (#[trigger] ne[k]).0 != ne[k].1 by {
                    if k < es.len() {
                        assert(ne[k] == es[k]);
                    }
                }
            }
        }
    }
}

/// `p` is the path of a scanned Java file.
pub open spec fn is_java_source(files: Seq<(Seq<char>, Seq<char>)>, p: Seq<char>) -> bool {
    exists|i: int| 0 <= i < files.len() && #[trigger] files[i] == ("java"@, p)
}

/// Every path in the index is the path of one of the scanned Java files.
pub proof fn law_index_paths_are_java_sources(files: Seq<(Seq<char>, Seq<char>)>)
    ensures
        forall|k: Seq<char>|
            #[trigger] fqn_index_of(files).contains_key(k) ==> is_java_source(
                files,
                fqn_index_of(files)[k],
            ),
    decreases files.len(),
{
    if files.len() > 0 {
        let rest = files.drop_last();
        law_index_paths_are_java_sources(rest);
        let f = files.last();
        let m0 = fqn_index_of(rest);
        assert forall|k: Seq<char>| #[trigger] fqn_index_of(files).contains_key(k) implies is_java_source(
            files,
            fqn_index_of(files)[k],
        ) by {
            let mk = fqn_index_of(files);
            assert(mk == index_file(m0, f.0, f.1));
            if m0.contains_key(k) && mk[k] == m0[k] {
                let i = choose|i: int| 0 <= i < rest.len() && #[trigger] rest[i] == ("java"@, m0[k]);
                assert(files[i] == rest[i]);
            } else {
                assert(f.0 == "java"@);
                assert(mk[k] == f.1);
                assert(files[files.len() - 1] == ("java"@, f.1));
            }
        }
    }
}

/// Every file that a name resolves to is a path stored in the index.
pub proof fn law_resolved_paths_come_from_index(m: Map<Seq<char>, Seq<char>>, fqn: Seq<char>)
    ensures
        resolve_fqn_spec(m, fqn) matches Some(p) ==> exists|k: Seq<char>| #[trigger] m.contains_key(k)
            && m[k] == p,
{
    if let Some(p) = resolve_fqn_spec(m, fqn) {
        if m.contains_key(fqn) {
            assert(m.contains_key(fqn) && m[fqn] == p);
        } else if lookup_prefix(m, fqn, first_index(fqn, '$')) is Some {
            let k = fqn.take(first_index(fqn, '$')->0);
            assert(m.contains_key(k) && m[k] == p);
        } else {
            let k = fqn.take(last_index(fqn, '.')->0);
            assert(m.contains_key(k) && m[k] == p);
        }
    }
}

/// Every file edge that mapping produces joins two paths stored in the index.
pub proof fn law_mapped_edges_join_indexed_files(
    m: Map<Seq<char>, Seq<char>>,
    deps: Seq<(Seq<char>, Seq<char>)>,
)
    ensures
        forall|k: int|
            0 <= k < map_deps(m, deps).0.len() ==> (exists|a: Seq<char>| #[trigger] m.contains_key(a)
                && m[a] == (#[trigger] map_deps(m, deps).0[k]).0) && (exists|b: Seq<char>|
                #[trigger] m.contains_key(b) && m[b] == map_deps(m, deps).0[k].1),
    decreases deps.len(),
{
    if deps.len() > 0 {
        law_mapped_edges_join_indexed_files(m, deps.drop_last());
        let (es, u) = map_deps(m, deps.drop_last());
        let d = deps.last();
        law_resolved_paths_come_from_index(m, d.0);
        law_resolved_paths_come_from_index(m, d.1);
        let ne = map_deps(m, deps).0;
        assert forall|k: int| 0 <= k < ne.len() implies (exists|a: Seq<char>|
            #[trigger] m.contains_key(a) && m[a] == (#[trigger] ne[k]).0) && (exists|b: Seq<char>|
            #[trigger] m.contains_key(b) && m[b] == ne[k].1) by {
            if k < es.len() {
                assert(ne[k] == es[k]);
            }
        }
    }
}

/// With no cycles given, no edge is a candidate for cutting.
pub proof fn law_no_cycles_no_candidates(es: Seq<(Seq<char>, Seq<char>)>, k: int)
    ensures
        cycle_edge_positions(es, Seq::empty(), k).len() == 0,
    decreases k,
{
    if k > 0 {
        law_no_cycles_no_candidates(es, k - 1);
    }
}

/// The candidates are edges inside at least one cycle, listed once each in edge order.
pub proof fn law_candidates_lie_in_cycles(
    es: Seq<(Seq<char>, Seq<char>)>,
    cs: Seq<Seq<Seq<char>>>,
    k: int,
)
    ensures
        forall|j: int|
            0 <= j < cycle_edge_positions(es, cs, k).len() ==> 0 <= #[trigger] cycle_edge_positions(
                es,
                cs,
                k,
            )[j] < k && cycles_through(
                cs,
                es[cycle_edge_positions(es, cs, k)[j]].0,
                es[cycle_edge_positions(es, cs, k)[j]].1,
            ) > 0,
        forall|i: int, j: int|
            0 <= i < j < cycle_edge_positions(es, cs, k).len() ==> cycle_edge_positions(es, cs, k)[i]
                < cycle_edge_positions(es, cs, k)[j],
    decreases k,
{
    if k > 0 {
        law_candidates_lie_in_cycles(es, cs, k - 1);
        let before = cycle_edge_positions(es, cs, k - 1);
        let now = cycle_edge_positions(es, cs, k);
        if cycles_through(cs, es[k - 1].0, es[k - 1].1) > 0 {
            assert(now == before.push(k - 1));
            assert forall|j: int| 0 <= j < now.len() implies 0 <= #[trigger] now[j] < k && cycles_through(
                cs,
                es[now[j]].0,
                es[now[j]].1,
            ) > 0 by {
                if j < before.len() {
                    assert(now[j] == before[j]);
                }
            }
            assert forall|i: int, j: int| 0 <= i < j < now.len() implies now[i] < now[j] by {
                assert(now[i] == before[i]);
                if j < before.len() {
                    assert(now[j] == before[j]);
                }
            }
        }
    }
}

/// With an empty cycle list the greedy pass stops before its first
/// suggestion, whatever the edges and the ranked candidates.
pub proof fn law_no_cycles_no_suggestions(
    es: Seq<(Seq<char>, Seq<char>)>,
    ranked: Seq<CycleBreakSuggestion>,
    max: nat,
)
    ensures
        greedy_done(es, 0, ranked, max, 0),
{
}

/// Reaching along fewer edges implies reaching along more.
proof fn lemma_reaches_within(
    small: spec_fn(int, int) -> bool,
    big: spec_fn(int, int) -> bool,
    a: int,
    b: int,
)
    requires
        forall|x: int, y: int| #[trigger] small(x, y) ==> big(x, y),
        reaches(small, a, b),
    ensures
        reaches(big, a, b),
{
    let p = choose|p: Seq<int>| #[trigger] is_path(small, p) && p[0] == a && p.last() == b;
    assert forall|k: int| #![trigger p[k]] 0 <= k < p.len() - 1 implies big(p[k], p[k + 1]) by {
        assert(small(p[k], p[k + 1]));
    }
    assert(is_path(big, p));
}

proof fn lemma_cycles_through_positive(cs: Seq<Seq<Seq<char>>>, a: Seq<char>, b: Seq<char>, c: int)
    requires
        0 <= c < cs.len(),
        cs[c].contains(a),
        cs[c].contains(b),
    ensures
        cycles_through(cs, a, b) > 0,
    decreases cs.len(),
{
    if c < cs.len() - 1 {
        lemma_cycles_through_positive(cs.drop_last(), a, b, c);
    }
}

/// Cutting every edge that lies inside one of the given cycles leaves no
/// cycle at all, provided the given cycles cover the graph's components: any
/// two files that depend on each other appear together in some given cycle.
pub proof fn law_cutting_cycle_edges_breaks_all_cycles(
    es: Seq<(Seq<char>, Seq<char>)>,
    cs: Seq<Seq<Seq<char>>>,
    cuts: Seq<(Seq<char>, Seq<char>)>,
)
    requires
        forall|u: int, v: int|
            0 <= u < node_seq(es).len() && 0 <= v < node_seq(es).len() && u != v && #[trigger] mutual(
                graph_rel(node_seq(es), es, Seq::empty()),
                u,
                v,
            ) ==> exists|c: int|
                0 <= c < cs.len() && cs[c].contains(node_seq(es)[u]) && cs[c].contains(
                    node_seq(es)[v],
                ),
        forall|k: int|
            0 <= k < es.len() && cycles_through(cs, es[k].0, es[k].1) > 0 ==> cuts.contains(
                #[trigger] es[k],
            ),
    ensures
        scc_count(graph_rel(node_seq(es), es, cuts), node_seq(es).len()) == 0,
{
    let ns = node_seq(es);
    let n = ns.len();
    let full = graph_rel(ns, es, Seq::empty());
    let cut = graph_rel(ns, es, cuts);
    let leaders = Seq::new(n, |u: int| is_scc_leader(cut, n as int, u));
    assert forall|u: int| 0 <= u < n && #[trigger] leaders[u] implies false by {
        assert(edges_within(cut, n as int));
        assert(crate::graph::nontrivial(cut, n as int, u));
        lemma_succ_in_component(cut, n as int, u);
        let b = choose|b: int|
            0 <= b < n && b != u && #[trigger] cut(u, b) && mutual(cut, u, b)
                && crate::graph::nontrivial(cut, n as int, b);
        assert forall|x: int, y: int| #[trigger] cut(x, y) implies full(x, y) by {}
        lemma_reaches_within(cut, full, u, b);
        lemma_reaches_within(cut, full, b, u);
        assert(mutual(full, u, b));
        let c = choose|c: int| 0 <= c < cs.len() && cs[c].contains(ns[u]) && cs[c].contains(ns[b]);
        lemma_cycles_through_positive(cs, ns[u], ns[b], c);
        let k = choose|k: int| 0 <= k < es.len() && es[k] == (ns[u], ns[b]);
        assert(cuts.contains(es[k]));
    }
    lemma_count_true_mono(leaders, Seq::new(n, |u: int| false));
    lemma_count_true_none(n);
}

/// Where some edge of a walk along `big` is missing from `small`, that edge.
proof fn lemma_walk_leaves(
    small: spec_fn(int, int) -> bool,
    big: spec_fn(int, int) -> bool,
    p: Seq<int>,
)
    requires
        is_path(big, p),
        !is_path(small, p),
    ensures
        exists|k: int| 0 <= k < p.len() - 1 && #[trigger] big(p[k], p[k + 1]) && !small(p[k], p[k + 1]),
{
    assert(!forall|k: int| #![trigger p[k]] 0 <= k < p.len() - 1 ==> small(p[k], p[k + 1]));
    let k = choose|k: int| #![trigger p[k]] 0 <= k < p.len() - 1 && !small(p[k], p[k + 1]);
    assert(big(p[k], p[k + 1]));
}

/// Where cutting `cuts` leaves no cycle, every component of `es` with more than
/// one member, through its lowest-numbered member `u`, has one of its own edges cut.
proof fn lemma_leader_has_cut(
    es: Seq<(Seq<char>, Seq<char>)>,
    cuts: Seq<(Seq<char>, Seq<char>)>,
    u: int,
)
    requires
        scc_count(graph_rel(node_seq(es), es, cuts), node_seq(es).len()) == 0,
        0 <= u < node_seq(es).len(),
        is_scc_leader(edge_rel(es), node_seq(es).len() as int, u),
    ensures
        exists|i: int, a: int|
            #![trigger cuts[i], node_seq(es)[a]]
            0 <= i < cuts.len() && 0 <= a < node_seq(es).len() && cuts[i].0 == node_seq(es)[a]
                && mutual(edge_rel(es), u, a),
{
    let ns = node_seq(es);
    let n = ns.len() as int;
    let full = edge_rel(es);
    let cut = graph_rel(ns, es, cuts);
    let v = choose|v: int| 0 <= v < n && v != u && #[trigger] mutual(full, u, v);
    if mutual(cut, u, v) {
        crate::graph::law_scc_count_counts_components(cut, n as nat);
        crate::graph::lemma_reaches_self(cut, u);
        crate::graph::lemma_component_finite(cut, n, u);
        let c = crate::graph::component(cut, n, u);
        assert(c.contains(u) && c.contains(v));
        crate::graph::lemma_two_members(c, u, v);
        let cc = crate::graph::cycle_components(cut, n);
        assert(cc.contains(c));
        cc.lemma_len0_is_empty();
        assert(false);
    }
    let (x, y) = if !reaches(cut, u, v) {
        (u, v)
    } else {
        (v, u)
    };
    assert(!reaches(cut, x, y));
    assert(reaches(full, x, y));
    let p = choose|p: Seq<int>| #[trigger] is_path(full, p) && p[0] == x && p.last() == y;
    assert(!is_path(cut, p));
    lemma_walk_leaves(cut, full, p);
    let k = choose|k: int| 0 <= k < p.len() - 1 && #[trigger] full(p[k], p[k + 1]) && !cut(p[k], p[k + 1]);
    let a = p[k];
    let b = p[k + 1];
    assert(cuts.contains((ns[a], ns[b])));
    let i = choose|i: int| 0 <= i < cuts.len() && cuts[i] == (ns[a], ns[b]);
    crate::graph::lemma_path_prefix(full, p, k + 1);
    assert(p.take(k + 1).last() == a);
    assert(reaches(full, x, a));
    crate::graph::lemma_path_suffix(full, p, k);
    assert(p.skip(k)[0] == a);
    assert(p.skip(k).last() == y);
    assert(reaches(full, a, y));
    if x == u {
        crate::graph::lemma_reaches_trans(full, a, v, u);
    } else {
        crate::graph::lemma_reaches_trans(full, u, v, a);
    }
    assert(mutual(full, u, a));
    assert(cuts[i].0 == ns[a]);
}

/// Breaking every cycle takes at least one cut per cycle: any set of cut
/// edges that leaves no cycle (no component with more than one member) has
/// at least as many edges as the graph has such components.
pub proof fn law_cycles_bound_removals(
    es: Seq<(Seq<char>, Seq<char>)>,
    cuts: Seq<(Seq<char>, Seq<char>)>,
)
    requires
        scc_count(graph_rel(node_seq(es), es, cuts), node_seq(es).len()) == 0,
    ensures
        cuts.len() >= scc_count(edge_rel(es), node_seq(es).len()),
{
    let ns = node_seq(es);
    let n = ns.len();
    let full = edge_rel(es);
    lemma_node_seq_distinct(es);
    let leader = |u: int| is_scc_leader(full, n as int, u);
    crate::graph::lemma_count_true_filter(n, leader);
    assert(Seq::new(n, |u: int| leader(u)) =~= Seq::new(n, |u: int| is_scc_leader(full, n as int, u)));
    let l = Set::new(|u: int| 0 <= u < n && leader(u));
    let f = |u: int|
        choose|i: int|
            #![trigger cuts[i]]
            exists|a: int|
                #![trigger ns[a]]
                0 <= i < cuts.len() && 0 <= a < n && cuts[i].0 == ns[a] && mutual(full, u, a);
    assert forall|u: int| #[trigger] l.contains(u) implies exists|a: int|
        #![trigger ns[a]]
        0 <= f(u) < cuts.len() && 0 <= a < n && cuts[f(u)].0 == ns[a] && mutual(full, u, a) by {
        lemma_leader_has_cut(es, cuts, u);
        let (i, a) = choose|i: int, a: int|
            #![trigger cuts[i], ns[a]]
            0 <= i < cuts.len() && 0 <= a < n && cuts[i].0 == ns[a] && mutual(full, u, a);
        assert(exists|a: int|
            #![trigger ns[a]]
            0 <= i < cuts.len() && 0 <= a < n && cuts[i].0 == ns[a] && mutual(full, u, a));
    }
    assert forall|u: int, w: int|
        l.contains(u) && l.contains(w) && #[trigger] f(u) == #[trigger] f(w) implies u == w by {
        let a = choose|a: int|
            #![trigger ns[a]]
            0 <= f(u) < cuts.len() && 0 <= a < n && cuts[f(u)].0 == ns[a] && mutual(full, u, a);
        let b = choose|b: int|
            #![trigger ns[b]]
            0 <= f(w) < cuts.len() && 0 <= b < n && cuts[f(w)].0 == ns[b] && mutual(full, w, b);
        assert(ns[a] == ns[b]);
        assert(a == b);
        crate::graph::lemma_reaches_trans(full, u, a, w);
        crate::graph::lemma_reaches_trans(full, w, a, u);
        assert(mutual(full, u, w));
        if u < w {
            assert(!mutual(full, w, u));
        }
        if w < u {
            assert(!mutual(full, u, w));
        }
    }
    let range = vstd::set_lib::set_int_range(0, cuts.len() as int);
    vstd::set_lib::lemma_int_range(0, cuts.len() as int);
    assert(l.map(f).subset_of(range)) by {
        assert forall|i: int| #[trigger] l.map(f).contains(i) implies range.contains(i) by {
            let u = choose|u: int| l.contains(u) && f(u) == i;
        }
    }
    vstd::set_lib::lemma_map_size(l, l.map(f), f);
    vstd::set_lib::lemma_len_subset(l.map(f), range);
}

/// Number of dependencies with an end that does not resolve to a source file.
pub open spec fn unresolved_count(
    m: Map<Seq<char>, Seq<char>>,
    deps: Seq<(Seq<char>, Seq<char>)>,
) -> nat
    decreases deps.len(),
{
    if deps.len() == 0 {
        0
    } else {
        unresolved_count(m, deps.drop_last()) + if resolve_fqn_spec(m, deps.last().0) is None
            || resolve_fqn_spec(m, deps.last().1) is None {
            1nat
        } else {
            0nat
        }
    }
}

/// The unmapped count is exactly the number of dependencies with an end that
/// does not resolve; dependencies within one file are not counted.
pub proof fn law_unmapped_counts_unresolved(
    m: Map<Seq<char>, Seq<char>>,
    deps: Seq<(Seq<char>, Seq<char>)>,
)
    ensures
        map_deps(m, deps).1 == unresolved_count(m, deps),
    decreases deps.len(),
{
    if deps.len() > 0 {
        law_unmapped_counts_unresolved(m, deps.drop_last());
    }
}

/// The class that a scanned file `(lang, path)` declares, if it is a Java source.
pub open spec fn class_of(f: (Seq<char>, Seq<char>)) -> Option<Seq<char>> {
    if f.0 == "java"@ {
        class_name_of(f.1)
    } else {
        None
    }
}

/// The package of a class name: the text before its last `.`.
pub open spec fn package_of(c: Seq<char>) -> Option<Seq<char>> {
    prefix_at(c, last_index(c, '.'))
}

/// The `i`-th scanned file declares the class `k`.
pub open spec fn declares_class(files: Seq<(Seq<char>, Seq<char>)>, i: int, k: Seq<char>) -> bool {
    0 <= i < files.len() && class_of(files[i]) == Some(k)
}

/// The `i`-th scanned file declares a class of the package `k`.
pub open spec fn declares_package(files: Seq<(Seq<char>, Seq<char>)>, i: int, k: Seq<char>) -> bool {
    &&& 0 <= i < files.len()
    &&& class_of(files[i]) is Some
    &&& package_of(class_of(files[i])->0) == Some(k)
}

proof fn lemma_package_shorter(c: Seq<char>)
    ensures
        package_of(c) matches Some(p) ==> p.len() < c.len(),
{
    if last_index(c, '.') is Some {
        let d = choose|d: int| crate::text::is_last_index(c, '.', d);
        assert(crate::text::is_last_index(c, '.', d));
    }
}

/// Files that are not Java sources with a class name add nothing to the index,
/// wherever they stand among the scanned files.
pub proof fn law_index_ignores_other_files(
    files: Seq<(Seq<char>, Seq<char>)>,
    i: int,
    f: (Seq<char>, Seq<char>),
)
    requires
        0 <= i <= files.len(),
        class_of(f) is None,
    ensures
        fqn_index_of(files.insert(i, f)) == fqn_index_of(files),
    decreases files.len(),
{
    let with_f = files.insert(i, f);
    if i == files.len() {
        assert(with_f.drop_last() =~= files);
    } else {
        let rest = files.drop_last();
        law_index_ignores_other_files(rest, i, f);
        assert(with_f.drop_last() =~= rest.insert(i, f));
        assert(with_f.last() == files.last());
    }
}

/// The index holds exactly the classes and the packages that the Java files declare.
pub proof fn law_index_keys(files: Seq<(Seq<char>, Seq<char>)>, k: Seq<char>)
    ensures
        fqn_index_of(files).contains_key(k) <==> exists|i: int|
            declares_class(files, i, k) || declares_package(files, i, k),
    decreases files.len(),
{
    if files.len() > 0 {
        let rest = files.drop_last();
        let f = files.last();
        let last = files.len() - 1;
        law_index_keys(rest, k);
        assert forall|i: int| 0 <= i < rest.len() implies (declares_class(rest, i, k)
            == declares_class(files, i, k) && declares_package(rest, i, k) == declares_package(
            files,
            i,
            k,
        )) by {
            assert(rest[i] == files[i]);
        }
        assert(files[last] == f);
        if let Some(c) = class_of(f) {
            lemma_package_shorter(c);
        }
        if fqn_index_of(files).contains_key(k) {
            if !fqn_index_of(rest).contains_key(k) {
                assert(declares_class(files, last, k) || declares_package(files, last, k));
            } else {
                let i = choose|i: int| declares_class(rest, i, k) || declares_package(rest, i, k);
                assert(declares_class(files, i, k) || declares_package(files, i, k));
            }
        }
        if exists|i: int| declares_class(files, i, k) || declares_package(files, i, k) {
            let i = choose|i: int| declares_class(files, i, k) || declares_package(files, i, k);
            if i < last {
                assert(declares_class(rest, i, k) || declares_package(rest, i, k));
            }
        }
    }
}

/// A class maps to the path of the last Java file that declares it.
pub proof fn law_index_class_last_file(files: Seq<(Seq<char>, Seq<char>)>, k: Seq<char>, i: int)
    requires
        declares_class(files, i, k),
        forall|j: int| i < j < files.len() ==> !declares_class(files, j, k),
    ensures
        fqn_index_of(files).contains_key(k),
        fqn_index_of(files)[k] == files[i].1,
    decreases files.len(),
{
    let rest = files.drop_last();
    let f = files.last();
    let last = files.len() - 1;
    assert(files[last] == f);
    if let Some(c) = class_of(f) {
        lemma_package_shorter(c);
    }
    if i < last {
        assert forall|j: int| i < j < rest.len() implies !declares_class(rest, j, k) by {
            assert(rest[j] == files[j]);
            assert(!declares_class(files, j, k));
        }
        assert(rest[i] == files[i]);
        law_index_class_last_file(rest, k, i);
        assert(!declares_class(files, last, k));
    }
}

/// A package that no file declares as a class maps to the path of the first
/// Java file that declares a class of that package.
pub proof fn law_index_package_first_file(
    files: Seq<(Seq<char>, Seq<char>)>,
    k: Seq<char>,
    i: int,
)
    requires
        forall|j: int| !declares_class(files, j, k),
        declares_package(files, i, k),
        forall|j: int| 0 <= j < i ==> !declares_package(files, j, k),
    ensures
        fqn_index_of(files).contains_key(k),
        fqn_index_of(files)[k] == files[i].1,
    decreases files.len(),
{
    let rest = files.drop_last();
    let f = files.last();
    let last = files.len() - 1;
    assert(files[last] == f);
    if let Some(c) = class_of(f) {
        lemma_package_shorter(c);
    }
    assert forall|j: int| 0 <= j < rest.len() implies (declares_class(rest, j, k) == declares_class(
        files,
        j,
        k,
    ) && declares_package(rest, j, k) == declares_package(files, j, k)) by {
        assert(rest[j] == files[j]);
    }
    assert(!declares_class(files, last, k));
    if i < last {
        assert(forall|j: int| !declares_class(rest, j, k));
        law_index_package_first_file(rest, k, i);
        assert(rest[i] == files[i]);
    } else {
        law_index_keys(rest, k);
        assert(!fqn_index_of(rest).contains_key(k));
    }
}


/// `p` with every `/` replaced by `.`, as a class name is written.
pub open spec fn slashes_to_dots(p: Seq<char>) -> Seq<char> {
    Seq::new(p.len(), |i: int| if p[i] == '/' { '.' } else { p[i] })
}

proof fn lemma_class_under_root(root: Seq<char>, p: Seq<char>)
    requires
        crate::jdeps::strip_source_root(root + p + ".java"@) == (root + p + ".java"@).skip(
            root.len() as int,
        ),
    ensures
        class_name_of(root + p + ".java"@) == Some(slashes_to_dots(p)),
{
    reveal_strlit(".java");
    let path = root + p + ".java"@;
    let rest = path.skip(root.len() as int);
    assert(rest =~= p + ".java"@);
    assert(".java"@ =~= rest.subrange(rest.len() - 5, rest.len() as int));
    assert(rest.take(rest.len() - 5) =~= p);
    assert(crate::jdeps::dotted(p) =~= slashes_to_dots(p));
}

proof fn lemma_not_prefix_at(r: Seq<char>, s: Seq<char>, k: int)
    requires
        0 <= k < r.len(),
        k < s.len(),
        r[k] != s[k],
    ensures
        !r.is_prefix_of(s),
{
    if r.is_prefix_of(s) {
        assert(r[k] == s.subrange(0, r.len() as int)[k]);
    }
}

proof fn lemma_root_main(p: Seq<char>)
    ensures
        class_of(("java"@, "src/main/java/"@ + p + ".java"@)) == Some(slashes_to_dots(p)),
{
    reveal_strlit("src/main/java/");
    reveal_strlit("java");
    let r = "src/main/java/"@;
    let path = r + p + ".java"@;
    assert(r =~= path.subrange(0, r.len() as int));
    lemma_class_under_root(r, p);
}

proof fn lemma_root_test(p: Seq<char>)
    ensures
        class_of(("java"@, "src/test/java/"@ + p + ".java"@)) == Some(slashes_to_dots(p)),
{
    reveal_strlit("src/main/java/");
    reveal_strlit("src/test/java/");
    reveal_strlit("java");
    let r = "src/test/java/"@;
    let path = r + p + ".java"@;
    assert(r =~= path.subrange(0, r.len() as int));
    assert(path[4] == r[4]);
    lemma_not_prefix_at("src/main/java/"@, path, 4);
    lemma_class_under_root(r, p);
}

proof fn lemma_root_src(p: Seq<char>)
    ensures
        !"src/main/java/"@.is_prefix_of("src/"@ + p + ".java"@) && !"src/test/java/"@.is_prefix_of(
            "src/"@ + p + ".java"@,
        ) ==> class_of(("java"@, "src/"@ + p + ".java"@)) == Some(slashes_to_dots(p)),
{
    reveal_strlit("src/");
    reveal_strlit("java");
    let r = "src/"@;
    let path = r + p + ".java"@;
    assert(r =~= path.subrange(0, r.len() as int));
    if !"src/main/java/"@.is_prefix_of(path) && !"src/test/java/"@.is_prefix_of(path) {
        lemma_class_under_root(r, p);
    }
}

proof fn lemma_root_java(p: Seq<char>)
    ensures
        class_of(("java"@, "java/"@ + p + ".java"@)) == Some(slashes_to_dots(p)),
{
    reveal_strlit("src/main/java/");
    reveal_strlit("src/test/java/");
    reveal_strlit("src/");
    reveal_strlit("java/");
    reveal_strlit("java");
    let r = "java/"@;
    let path = r + p + ".java"@;
    assert(r =~= path.subrange(0, r.len() as int));
    assert(path[0] == r[0]);
    lemma_not_prefix_at("src/main/java/"@, path, 0);
    lemma_not_prefix_at("src/test/java/"@, path, 0);
    lemma_not_prefix_at("src/"@, path, 0);
    lemma_class_under_root(r, p);
}

proof fn lemma_no_root(p: Seq<char>)
    ensures
        !"src/"@.is_prefix_of(p + ".java"@) && !"java/"@.is_prefix_of(p + ".java"@) ==> class_of(
            ("java"@, p + ".java"@),
        ) == Some(slashes_to_dots(p)),
{
    reveal_strlit("src/main/java/");
    reveal_strlit("src/test/java/");
    reveal_strlit("src/");
    reveal_strlit("java");
    let pn = p + ".java"@;
    let src = "src/"@;
    if !src.is_prefix_of(pn) && !"java/"@.is_prefix_of(pn) {
        assert(!"src/main/java/"@.is_prefix_of(pn)) by {
            if "src/main/java/"@.is_prefix_of(pn) {
                assert(src =~= pn.subrange(0, src.len() as int));
            }
        }
        assert(!"src/test/java/"@.is_prefix_of(pn)) by {
            if "src/test/java/"@.is_prefix_of(pn) {
                assert(src =~= pn.subrange(0, src.len() as int));
            }
        }
        assert(Seq::<char>::empty() + p + ".java"@ =~= pn);
        assert(pn.skip(0) =~= pn);
        lemma_class_under_root(Seq::<char>::empty(), p);
    }
}

/// Scanned last, a Java file whose class is `c` is what `c` maps to in the index.
proof fn lemma_last_file_class(files: Seq<(Seq<char>, Seq<char>)>, path: Seq<char>, c: Seq<char>)
    requires
        class_of(("java"@, path)) == Some(c),
    ensures
        fqn_index_of(files.push(("java"@, path))).contains_key(c),
        fqn_index_of(files.push(("java"@, path)))[c] == path,
{
    let fs = files.push(("java"@, path));
    assert(fs.drop_last() =~= files);
    assert(fs.last() == ("java"@, path));
    match prefix_at(c, last_index(c, '.')) {
        Some(pkg) => {
            if pkg == c {
                lemma_package_shorter(c);
            }
        },
        None => {},
    }
}

/// A Java source under a source root names the class spelled by its path
/// below that root, with `/` read as `.`; the roots are tried in the order
/// `src/main/java/`, `src/test/java/`, `src/`, `java/`, and a path under none
/// of them is read whole. Scanned last, such a file is what its class name
/// maps to in the index.
pub proof fn law_class_names_follow_source_roots(
    files: Seq<(Seq<char>, Seq<char>)>,
    p: Seq<char>,
)
    ensures
        class_of(("java"@, "src/main/java/"@ + p + ".java"@)) == Some(slashes_to_dots(p)),
        class_of(("java"@, "src/test/java/"@ + p + ".java"@)) == Some(slashes_to_dots(p)),
        !"src/main/java/"@.is_prefix_of("src/"@ + p + ".java"@) && !"src/test/java/"@.is_prefix_of(
            "src/"@ + p + ".java"@,
        ) ==> class_of(("java"@, "src/"@ + p + ".java"@)) == Some(slashes_to_dots(p)),
        class_of(("java"@, "java/"@ + p + ".java"@)) == Some(slashes_to_dots(p)),
        !"src/"@.is_prefix_of(p + ".java"@) && !"java/"@.is_prefix_of(p + ".java"@) ==> class_of(
            ("java"@, p + ".java"@),
        ) == Some(slashes_to_dots(p)),
        forall|root: Seq<char>|
            #![trigger fqn_index_of(files.push(("java"@, root + p + ".java"@)))]
            root == "src/main/java/"@ || root == "src/test/java/"@ || root == "java/"@ ==> {
                let path = root + p + ".java"@;
                let m = fqn_index_of(files.push(("java"@, path)));
                m.contains_key(slashes_to_dots(p)) && m[slashes_to_dots(p)] == path
            },
{
    lemma_root_main(p);
    lemma_root_test(p);
    lemma_root_src(p);
    lemma_root_java(p);
    lemma_no_root(p);
    lemma_last_file_class(files, "src/main/java/"@ + p + ".java"@, slashes_to_dots(p));
    lemma_last_file_class(files, "src/test/java/"@ + p + ".java"@, slashes_to_dots(p));
    lemma_last_file_class(files, "java/"@ + p + ".java"@, slashes_to_dots(p));
}

/// Resolving a class name tries, in turn: the name itself; for an inner class,
/// the text before its first `$` (the outermost class); the text before its
/// last `.` (its package). The first of these that the index holds gives the
/// file, and with none of them there is no file.
pub proof fn law_resolve_order(m: Map<Seq<char>, Seq<char>>, fqn: Seq<char>, d: int, e: int)
    ensures
        m.contains_key(fqn) ==> resolve_fqn_spec(m, fqn) == Some(m[fqn]),
        ({
            &&& !m.contains_key(fqn)
            &&& 0 <= d < fqn.len() && fqn[d] == '$'
            &&& forall|j: int| 0 <= j < d ==> fqn[j] != '$'
            &&& m.contains_key(fqn.take(d))
        }) ==> resolve_fqn_spec(m, fqn) == Some(m[fqn.take(d)]),
        ({
            &&& !m.contains_key(fqn)
            &&& (forall|j: int| 0 <= j < fqn.len() ==> fqn[j] != '$') || (0 <= d < fqn.len()
                && fqn[d] == '$' && (forall|j: int| 0 <= j < d ==> fqn[j] != '$')
                && !m.contains_key(fqn.take(d)))
            &&& 0 <= e < fqn.len() && fqn[e] == '.'
            &&& forall|j: int| e < j < fqn.len() ==> fqn[j] != '.'
        }) ==> resolve_fqn_spec(m, fqn) == (if m.contains_key(fqn.take(e)) {
            Some(m[fqn.take(e)])
        } else {
            None
        }),
        ({
            &&& !m.contains_key(fqn)
            &&& (forall|j: int| 0 <= j < fqn.len() ==> fqn[j] != '$') || (0 <= d < fqn.len()
                && fqn[d] == '$' && (forall|j: int| 0 <= j < d ==> fqn[j] != '$')
                && !m.contains_key(fqn.take(d)))
            &&& forall|j: int| 0 <= j < fqn.len() ==> fqn[j] != '.'
        }) ==> resolve_fqn_spec(m, fqn) is None,
{
    if 0 <= d < fqn.len() && fqn[d] == '$' && (forall|j: int| 0 <= j < d ==> fqn[j] != '$') {
        assert(is_first_index(fqn, '$', d));
        let d2 = choose|i: int| is_first_index(fqn, '$', i);
        assert(is_first_index(fqn, '$', d2));
        if d2 < d {
            assert(fqn[d2] != '$');
        }
        if d < d2 {
            assert(fqn[d] != '$');
        }
        assert(first_index(fqn, '$') == Some(d));
    }
    if forall|j: int| 0 <= j < fqn.len() ==> fqn[j] != '$' {
        assert(!exists|i: int| is_first_index(fqn, '$', i));
        assert(first_index(fqn, '$') is None);
    }
    if 0 <= e < fqn.len() && fqn[e] == '.' && (forall|j: int| e < j < fqn.len() ==> fqn[j] != '.') {
        assert(crate::text::is_last_index(fqn, '.', e));
        let e2 = choose|i: int| crate::text::is_last_index(fqn, '.', i);
        assert(crate::text::is_last_index(fqn, '.', e2));
        if e2 < e {
            assert(fqn[e] != '.');
        }
        if e < e2 {
            assert(fqn[e2] != '.');
        }
        assert(last_index(fqn, '.') == Some(e));
    }
    if forall|j: int| 0 <= j < fqn.len() ==> fqn[j] != '.' {
        assert(!exists|i: int| crate::text::is_last_index(fqn, '.', i));
        assert(last_index(fqn, '.') is None);
    }
}


/// The files that `x` imports in `es`.
pub open spec fn imported_by(es: Seq<(Seq<char>, Seq<char>)>, x: Seq<char>) -> Set<Seq<char>> {
    Set::new(|y: Seq<char>| es.contains((x, y)))
}

/// The files that import `x` in `es`.
pub open spec fn importers_of(es: Seq<(Seq<char>, Seq<char>)>, x: Seq<char>) -> Set<Seq<char>> {
    Set::new(|y: Seq<char>| es.contains((y, x)))
}

proof fn lemma_contains_push(
    d: Seq<(Seq<char>, Seq<char>)>,
    l: (Seq<char>, Seq<char>),
    p: (Seq<char>, Seq<char>),
)
    ensures
        d.push(l).contains(p) <==> d.contains(p) || p == l,
{
    let es = d.push(l);
    if es.contains(p) && p != l {
        let q = choose|q: int| 0 <= q < es.len() && es[q] == p;
        assert(q < d.len());
        assert(d[q] == p);
    }
    if d.contains(p) {
        let q = choose|q: int| 0 <= q < d.len() && d[q] == p;
        assert(es[q] == p);
    }
    if p == l {
        assert(es[d.len() as int] == p);
    }
}

/// A file's fan-out is the number of distinct files it imports, and its
/// fan-in the number of distinct files that import it: repeated edges count once.
pub proof fn law_fan_counts_count_distinct_files(es: Seq<(Seq<char>, Seq<char>)>, x: Seq<char>)
    ensures
        imported_by(es, x).finite(),
        fan_out_count(es, x) == imported_by(es, x).len(),
        importers_of(es, x).finite(),
        fan_in_count(es, x) == importers_of(es, x).len(),
    decreases es.len(),
{
    if es.len() == 0 {
        assert(imported_by(es, x) =~= Set::empty());
        assert(importers_of(es, x) =~= Set::empty());
    } else {
        let d = es.drop_last();
        let l = es.last();
        law_fan_counts_count_distinct_files(d, x);
        assert(es =~= d.push(l));
        assert forall|p: (Seq<char>, Seq<char>)| es.contains(p) <==> d.contains(p) || p == l by {
            lemma_contains_push(d, l, p);
        }
        if l.0 == x {
            assert(imported_by(es, x) =~= imported_by(d, x).insert(l.1));
            assert(imported_by(d, x).contains(l.1) <==> d.contains(l));
        } else {
            assert(imported_by(es, x) =~= imported_by(d, x));
        }
        if l.1 == x {
            assert(importers_of(es, x) =~= importers_of(d, x).insert(l.0));
            assert(importers_of(d, x).contains(l.0) <==> d.contains(l));
        } else {
            assert(importers_of(es, x) =~= importers_of(d, x));
        }
    }
}


/// The `i`-th dependency has both ends resolved, to the different files `a` and `b`.
pub open spec fn dep_joins(
    m: Map<Seq<char>, Seq<char>>,
    deps: Seq<(Seq<char>, Seq<char>)>,
    i: int,
    a: Seq<char>,
    b: Seq<char>,
) -> bool {
    &&& 0 <= i < deps.len()
    &&& resolve_fqn_spec(m, deps[i].0) == Some(a)
    &&& resolve_fqn_spec(m, deps[i].1) == Some(b)
    &&& a != b
}

/// The mapped edges are exactly the file pairs `(a, b)` that some dependency
/// joins: every dependency whose ends resolve to two different files gives
/// that edge, and no edge comes from anywhere else.
pub proof fn law_mapped_edges_are_joined_files(
    m: Map<Seq<char>, Seq<char>>,
    deps: Seq<(Seq<char>, Seq<char>)>,
)
    ensures
        forall|a: Seq<char>, b: Seq<char>|
            #[trigger] map_deps(m, deps).0.contains((a, b)) <==> exists|i: int|
                dep_joins(m, deps, i, a, b),
    decreases deps.len(),
{
    if deps.len() == 0 {
        assert forall|a: Seq<char>, b: Seq<char>|
            #[trigger] map_deps(m, deps).0.contains((a, b)) <==> exists|i: int|
                dep_joins(m, deps, i, a, b) by {
            assert(map_deps(m, deps).0 =~= Seq::<(Seq<char>, Seq<char>)>::empty());
        }
    } else {
        let rest = deps.drop_last();
        law_mapped_edges_are_joined_files(m, rest);
        let es = map_deps(m, rest).0;
        let ne = map_deps(m, deps).0;
        let d = deps.last();
        let n = deps.len() - 1;
        assert(deps[n] == d);
        assert forall|a: Seq<char>, b: Seq<char>|
            #[trigger] map_deps(m, deps).0.contains((a, b)) <==> exists|i: int|
                dep_joins(m, deps, i, a, b) by {
            let last_joins = resolve_fqn_spec(m, d.0) == Some(a) && resolve_fqn_spec(m, d.1)
                == Some(b) && a != b;
            assert(ne.contains((a, b)) <==> es.contains((a, b)) || last_joins) by {
                if ne != es {
                    lemma_contains_push(es, ne.last(), (a, b));
                    assert(ne =~= es.push(ne.last()));
                } else if last_joins {
                    assert(es.contains((a, b)));
                }
            }
            if exists|i: int| dep_joins(m, rest, i, a, b) {
                let i = choose|i: int| dep_joins(m, rest, i, a, b);
                assert(rest[i] == deps[i]);
                assert(dep_joins(m, deps, i, a, b));
            }
            if last_joins {
                assert(dep_joins(m, deps, n, a, b));
            }
            if exists|i: int| dep_joins(m, deps, i, a, b) {
                let i = choose|i: int| dep_joins(m, deps, i, a, b);
                if i < n {
                    assert(rest[i] == deps[i]);
                    assert(dep_joins(m, rest, i, a, b));
                }
            }
        }
    }
}


/// Only a Java source names a class: a file whose language is not Java, or
/// whose path does not end in `.java`, names none. So every path stored in
/// the index ends in `.java`.
pub proof fn law_only_java_sources_name_classes(
    files: Seq<(Seq<char>, Seq<char>)>,
    f: (Seq<char>, Seq<char>),
)
    ensures
        f.0 != "java"@ || !".java"@.is_suffix_of(f.1) ==> class_of(f) is None,
        forall|k: Seq<char>|
            #[trigger] fqn_index_of(files).contains_key(k) ==> ".java"@.is_suffix_of(
                fqn_index_of(files)[k],
            ),
    decreases files.len(),
{
    lemma_class_needs_java_suffix(f);
    if files.len() > 0 {
        let rest = files.drop_last();
        let g = files.last();
        law_only_java_sources_name_classes(rest, g);
        let m0 = fqn_index_of(rest);
        assert forall|k: Seq<char>| #[trigger] fqn_index_of(files).contains_key(k) implies ".java"@.is_suffix_of(
            fqn_index_of(files)[k],
        ) by {
            let mk = fqn_index_of(files);
            assert(mk == index_file(m0, g.0, g.1));
            if !(m0.contains_key(k) && mk[k] == m0[k]) {
                assert(class_of(g) is Some);
                assert(mk[k] == g.1);
            }
        }
    }
}

proof fn lemma_class_needs_java_suffix(f: (Seq<char>, Seq<char>))
    ensures
        class_of(f) is Some ==> f.0 == "java"@ && ".java"@.is_suffix_of(f.1),
{
    let path = f.1;
    let p = crate::jdeps::strip_source_root(path);
    let k: int = path.len() - p.len();
    assert(0 <= k && p =~= path.skip(k)) by {
        reveal_strlit("src/main/java/");
        reveal_strlit("src/test/java/");
        reveal_strlit("src/");
        reveal_strlit("java/");
    }
    if ".java"@.is_suffix_of(p) {
        assert(".java"@ =~= path.subrange(path.len() - ".java"@.len(), path.len() as int));
    }
}


/// No dependency up to the `i`-th joins the files of `e`.
pub open spec fn unjoined_through(
    m: Map<Seq<char>, Seq<char>>,
    deps: Seq<(Seq<char>, Seq<char>)>,
    i: int,
    e: (Seq<char>, Seq<char>),
) -> bool {
    forall|j: int| 0 <= j <= i ==> !#[trigger] dep_joins(m, deps, j, e.0, e.1)
}

/// Some dependency joins the `k`-th edge of `es` before any dependency joins
/// the `l`-th.
pub open spec fn joined_earlier(
    m: Map<Seq<char>, Seq<char>>,
    deps: Seq<(Seq<char>, Seq<char>)>,
    es: Seq<(Seq<char>, Seq<char>)>,
    k: int,
    l: int,
) -> bool {
    exists|i: int|
        #![trigger dep_joins(m, deps, i, es[k].0, es[k].1)]
        dep_joins(m, deps, i, es[k].0, es[k].1) && unjoined_through(m, deps, i, es[l])
}

/// Each edge of `es` listed before another is joined by some dependency of
/// `deps` before any dependency joins the other.
pub open spec fn in_joining_order(
    m: Map<Seq<char>, Seq<char>>,
    deps: Seq<(Seq<char>, Seq<char>)>,
    es: Seq<(Seq<char>, Seq<char>)>,
) -> bool {
    forall|k: int, l: int| 0 <= k < l < es.len() ==> #[trigger] joined_earlier(m, deps, es, k, l)
}

/// The mapped edges come in the order of the dependencies that first join
/// them: an edge listed before another is joined by some dependency before
/// any dependency joins the other.
pub proof fn law_mapped_edges_in_dependency_order(
    m: Map<Seq<char>, Seq<char>>,
    deps: Seq<(Seq<char>, Seq<char>)>,
)
    ensures
        in_joining_order(m, deps, map_deps(m, deps).0),
    decreases deps.len(),
{
    if deps.len() > 0 {
        let rest = deps.drop_last();
        law_mapped_edges_in_dependency_order(m, rest);
        law_mapped_edges_are_joined_files(m, rest);
        let es = map_deps(m, rest).0;
        let ne = map_deps(m, deps).0;
        assert forall|k: int, l: int| 0 <= k < l < ne.len() implies #[trigger] joined_earlier(
            m,
            deps,
            ne,
            k,
            l,
        ) by {
            assert(ne == es || ne == es.push(ne.last()));
            if ne != es {
                assert(ne =~= es.push(ne.last()));
            }
            assert(ne[k] == es[k]);
            if l < es.len() {
                assert(ne[l] == es[l]);
                assert(joined_earlier(m, rest, es, k, l));
                let i = choose|i: int|
                    #![trigger dep_joins(m, rest, i, es[k].0, es[k].1)]
                    dep_joins(m, rest, i, es[k].0, es[k].1) && unjoined_through(m, rest, i, es[l]);
                assert(rest[i] == deps[i]);
                assert(dep_joins(m, deps, i, ne[k].0, ne[k].1));
                assert forall|j: int| 0 <= j <= i implies !#[trigger] dep_joins(
                    m,
                    deps,
                    j,
                    ne[l].0,
                    ne[l].1,
                ) by {
                    assert(rest[j] == deps[j]);
                    assert(!dep_joins(m, rest, j, es[l].0, es[l].1));
                }
            } else {
                let e = ne[l];
                assert(ne.last() == e);
                assert(!es.contains(e));
                assert(es.contains((es[k].0, es[k].1)));
                let i = choose|i: int| dep_joins(m, rest, i, es[k].0, es[k].1);
                assert(rest[i] == deps[i]);
                assert(dep_joins(m, deps, i, ne[k].0, ne[k].1));
                assert forall|j: int| 0 <= j <= i implies !#[trigger] dep_joins(
                    m,
                    deps,
                    j,
                    e.0,
                    e.1,
                ) by {
                    if dep_joins(m, deps, j, e.0, e.1) {
                        assert(rest[j] == deps[j]);
                        assert(dep_joins(m, rest, j, e.0, e.1));
                        assert(es.contains((e.0, e.1)));
                    }
                }
            }
        }
    }
}

} // verus!
