//! Import edges as a numbered graph: each file name gets the number of its
//! first appearance, and the edges become pairs of numbers.
use vstd::prelude::*;

use crate::graph::adj_matches;
use crate::graph::reversed;
use crate::types::str_views;
use crate::types::ImportEdge;

verus! {

/// `ns` with `x` added at the end unless it is already there.
pub open spec fn push_new(ns: Seq<Seq<char>>, x: Seq<char>) -> Seq<Seq<char>> {
    if ns.contains(x) {
        ns
    } else {
        ns.push(x)
    }
}

/// The file names of the edges, each once, in order of first appearance
/// (importer before imported within an edge).
pub open spec fn node_seq(es: Seq<(Seq<char>, Seq<char>)>) -> Seq<Seq<char>>
    decreases es.len(),
{
    if es.len() == 0 {
        Seq::empty()
    } else {
        let e = es.last();
        push_new(push_new(node_seq(es.drop_last()), e.0), e.1)
    }
}

pub proof fn lemma_node_seq_distinct(es: Seq<(Seq<char>, Seq<char>)>)
    ensures
        node_seq(es).no_duplicates(),
    decreases es.len(),
{
    if es.len() > 0 {
        lemma_node_seq_distinct(es.drop_last());
        let e = es.last();
        let ns0 = node_seq(es.drop_last());
        let ns1 = push_new(ns0, e.0);
        assert(ns1.no_duplicates()) by {
            if !ns0.contains(e.0) {
                assert forall|i: int, j: int|
                    0 <= i < ns1.len() && 0 <= j < ns1.len() && i != j implies ns1[i] != ns1[j] by {
                    if i < ns0.len() && j < ns0.len() {
                        assert(ns0[i] != ns0[j]);
                    } else if i < ns0.len() {
                        assert(ns1[i] == ns0[i]);
                    } else {
                        assert(ns1[j] == ns0[j]);
                    }
                }
            }
        }
        let ns2 = push_new(ns1, e.1);
        if !ns1.contains(e.1) {
            assert forall|i: int, j: int|
                0 <= i < ns2.len() && 0 <= j < ns2.len() && i != j implies ns2[i] != ns2[j] by {
                if i < ns1.len() && j < ns1.len() {
                    assert(ns1[i] != ns1[j]);
                } else if i < ns1.len() {
                    assert(ns2[i] == ns1[i]);
                } else {
                    assert(ns2[j] == ns1[j]);
                }
            }
        }
    }
}

/// Edges between the numbered nodes `ns`: those of `es` that are not among `cuts`.
pub open spec fn graph_rel(
    ns: Seq<Seq<char>>,
    es: Seq<(Seq<char>, Seq<char>)>,
    cuts: Seq<(Seq<char>, Seq<char>)>,
) -> spec_fn(int, int) -> bool {
    |a: int, b: int|
        0 <= a < ns.len() && 0 <= b < ns.len() && es.contains((ns[a], ns[b])) && !cuts.contains(
            (ns[a], ns[b]),
        )
}

/// The numbered graph of `es`.
pub open spec fn edge_rel(es: Seq<(Seq<char>, Seq<char>)>) -> spec_fn(int, int) -> bool {
    graph_rel(node_seq(es), es, Seq::empty())
}

/// Number of the file name `x` among the nodes of `es`.
pub open spec fn node_id(es: Seq<(Seq<char>, Seq<char>)>, x: Seq<char>) -> int {
    node_seq(es).index_of(x)
}

/// The numbered form of a list of import edges.
pub struct FileGraph {
    /// File names, numbered by position.
    pub names: Vec<String>,
    /// For each edge, the numbers of its importer and imported file.
    pub ends: Vec<(usize, usize)>,
}

impl FileGraph {
    /// This graph numbers the edges `es`.
    pub open spec fn numbers(&self, es: Seq<(Seq<char>, Seq<char>)>) -> bool {
        let ns = node_seq(es);
        &&& str_views(self.names@) == ns
        &&& ns.no_duplicates()
        &&& self.ends.len() == es.len()
        &&& forall|k: int|
            #![trigger self.ends@[k]]
            0 <= k < es.len() ==> {
                &&& self.ends@[k].0 < ns.len()
                &&& self.ends@[k].1 < ns.len()
                &&& ns[self.ends@[k].0 as int] == es[k].0
                &&& ns[self.ends@[k].1 as int] == es[k].1
            }
    }
}

/// Position of the name `s` in `names`.
pub(crate) fn find_name(names: &Vec<String>, s: &String) -> (r: Option<usize>)
    ensures
        r matches Some(i) ==> i < names.len() && names@[i as int]@ == s@,
        r is None ==> !str_views(names@).contains(s@),
{
    let mut i: usize = 0;
    while i < names.len()
        invariant
            0 <= i <= names.len(),
            forall|j: int| 0 <= j < i ==> names@[j]@ != s@,
        decreases names.len() - i,
    {
        if names[i] == *s {
            return Some(i);
        }
        i += 1;
    }
    assert forall|j: int| 0 <= j < names.len() implies str_views(names@)[j] != s@ by {
        assert(names@[j]@ != s@);
    }
    None
}

/// Number of `s` in `names`, adding it at the end if it is new.
fn intern(names: &mut Vec<String>, s: &String) -> (id: usize)
    requires
        str_views(old(names)@).no_duplicates(),
    ensures
        str_views(final(names)@) == push_new(str_views(old(names)@), s@),
        str_views(final(names)@).no_duplicates(),
        id < final(names).len(),
        final(names)@[id as int]@ == s@,
        final(names).len() >= old(names).len(),
        forall|i: int| 0 <= i < old(names).len() ==> final(names)@[i] == old(names)@[i],
{
    match find_name(names, s) {
        Some(i) => {
            assert(str_views(names@)[i as int] == s@);
            i
        },
        None => {
            let ghost old_v = str_views(names@);
            names.push(s.clone());
            assert(str_views(names@) =~= old_v.push(s@));
            names.len() - 1
        },
    }
}

/// Numbers the files of `edges` in order of first appearance.
pub(crate) fn number_files(edges: &[ImportEdge]) -> (g: FileGraph)
    ensures
        g.numbers(crate::types::edge_views(edges@)),
{
    let ghost es = crate::types::edge_views(edges@);
    let mut names: Vec<String> = Vec::new();
    let mut ends: Vec<(usize, usize)> = Vec::new();
    let mut k: usize = 0;
    assert(str_views(names@) =~= node_seq(es.take(0)));
    while k < edges.len()
        invariant
            es == crate::types::edge_views(edges@),
            0 <= k <= edges.len(),
            str_views(names@) == node_seq(es.take(k as int)),
            str_views(names@).no_duplicates(),
            ends.len() == k,
            forall|j: int|
                #![trigger ends@[j]]
                0 <= j < k ==> {
                    &&& ends@[j].0 < names.len()
                    &&& ends@[j].1 < names.len()
                    &&& str_views(names@)[ends@[j].0 as int] == es[j].0
                    &&& str_views(names@)[ends@[j].1 as int] == es[j].1
                },
        decreases edges.len() - k,
    {
        let ghost before = str_views(names@);
        let a = intern(&mut names, &edges[k].from_file);
        let ghost middle = str_views(names@);
        let ghost middle_names = names@;
        let b = intern(&mut names, &edges[k].to_file);
        assert(es.take(k + 1).drop_last() =~= es.take(k as int));
        assert(es.take(k + 1).last() == es[k as int]);
        assert forall|i: int| 0 <= i < before.len() implies str_views(names@)[i] == before[i] by {
            assert(middle[i] == before[i]);
        }
        ends.push((a, b));
        assert forall|j: int|
            #![trigger ends@[j]]
            0 <= j < k + 1 implies {
                &&& ends@[j].0 < names.len()
                &&& ends@[j].1 < names.len()
                &&& str_views(names@)[ends@[j].0 as int] == es[j].0
                &&& str_views(names@)[ends@[j].1 as int] == es[j].1
            } by {
            if j == k {
                assert(names@[a as int] == middle_names[a as int]);
                assert(str_views(names@)[a as int] == names@[a as int]@);
                assert(str_views(names@)[b as int] == names@[b as int]@);
            }
        }
        k += 1;
    }
    assert(es.take(edges.len() as int) =~= es);
    FileGraph { names, ends }
}

/// Successor (or, with `backward`, predecessor) lists of the numbered graph of
/// `es`, keeping the edges flagged in `keep`: exactly those not among `cuts`.
pub(crate) fn adjacency(
    g: &FileGraph,
    keep: &Vec<bool>,
    backward: bool,
    Ghost(es): Ghost<Seq<(Seq<char>, Seq<char>)>>,
    Ghost(cuts): Ghost<Seq<(Seq<char>, Seq<char>)>>,
) -> (adj: Vec<Vec<usize>>)
    requires
        g.numbers(es),
        keep.len() == es.len(),
        forall|k: int| 0 <= k < es.len() ==> (#[trigger] keep@[k] <==> !cuts.contains(es[k])),
    ensures
        !backward ==> adj_matches(adj@, g.names.len() as int, graph_rel(node_seq(es), es, cuts)),
        backward ==> adj_matches(
            adj@,
            g.names.len() as int,
            reversed(graph_rel(node_seq(es), es, cuts)),
        ),
{
    let ghost ns = node_seq(es);
    let ghost rel = graph_rel(ns, es, cuts);
    let ghost e = if backward {
        reversed(rel)
    } else {
        rel
    };
    let n = g.names.len();
    let mut adj: Vec<Vec<usize>> = Vec::new();
    let mut i: usize = 0;
    while i < n
        invariant
            0 <= i <= n,
            adj.len() == i,
            forall|x: int| 0 <= x < i ==> (#[trigger] adj@[x])@.len() == 0,
        decreases n - i,
    {
        adj.push(Vec::new());
        i += 1;
    }
    let mut k: usize = 0;
    while k < g.ends.len()
        invariant
            g.numbers(es),
            ns == node_seq(es),
            n == g.names.len(),
            n == ns.len(),
            rel == graph_rel(ns, es, cuts),
            e == (if backward {
                reversed(rel)
            } else {
                rel
            }),
            keep.len() == es.len(),
            forall|k: int| 0 <= k < es.len() ==> (#[trigger] keep@[k] <==> !cuts.contains(es[k])),
            0 <= k <= g.ends.len(),
            adj.len() == n,
            forall|x: int, j: int|
                0 <= x < n && 0 <= j < adj@[x].len() ==> (#[trigger] adj@[x]@[j]) < n && e(
                    x,
                    adj@[x]@[j] as int,
                ),
            forall|j: int|
                #![trigger g.ends@[j]]
                0 <= j < k && keep@[j] ==> if backward {
                    adj@[g.ends@[j].1 as int]@.contains(g.ends@[j].0)
                } else {
                    adj@[g.ends@[j].0 as int]@.contains(g.ends@[j].1)
                },
        decreases g.ends.len() - k,
    {
        if keep[k] {
            let (a, b) = g.ends[k];
            assert(g.ends@[k as int] == (a, b));
            assert(es.contains(es[k as int]));
            assert(rel(a as int, b as int));
            let ghost old_adj = adj@;
            if backward {
                adj[b].push(a);
            } else {
                adj[a].push(b);
            }
            assert forall|j: int|
                #![trigger g.ends@[j]]
                0 <= j < k + 1 && keep@[j] implies if backward {
                    adj@[g.ends@[j].1 as int]@.contains(g.ends@[j].0)
                } else {
                    adj@[g.ends@[j].0 as int]@.contains(g.ends@[j].1)
                } by {
                if j < k {
                    if backward {
                        let t = g.ends@[j].1 as int;
                        let q = choose|q: int| 0 <= q < old_adj[t]@.len() && old_adj[t]@[q] == g.ends@[j].0;
                        assert(adj@[t]@[q] == g.ends@[j].0);
                    } else {
                        let t = g.ends@[j].0 as int;
                        let q = choose|q: int| 0 <= q < old_adj[t]@.len() && old_adj[t]@[q] == g.ends@[j].1;
                        assert(adj@[t]@[q] == g.ends@[j].1);
                    }
                } else {
                    if backward {
                        assert(adj@[b as int]@[adj@[b as int]@.len() - 1] == a);
                    } else {
                        assert(adj@[a as int]@[adj@[a as int]@.len() - 1] == b);
                    }
                }
            }
        }
        k += 1;
    }
    assert forall|a: int, b: int| #[trigger] e(a, b) implies 0 <= a < n && 0 <= b < n && adj@[a]@.contains(
        b as usize,
    ) by {
        let (x, y) = if backward {
            (b, a)
        } else {
            (a, b)
        };
        assert(rel(x, y));
        let k = choose|k: int| 0 <= k < es.len() && es[k] == (ns[x], ns[y]);
        assert(keep@[k]);
        let (p, q) = g.ends@[k];
        assert(ns[p as int] == ns[x]);
        assert(ns[q as int] == ns[y]);
        assert(p == x);
        assert(q == y);
    }
    adj
}

} // verus!
